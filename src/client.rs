//! A client's side: it announces the entities made here, applies what the
//! server relays, and tags what came from the network so that it is never
//! announced back.
use vstd::prelude::*;
use crate::entity::{ClientEntity, ServerEntity};
use crate::entity_map::{EntityMap, injective, left_of, pairs_after_insert};
use crate::message::{
    ClientMsgV, IgnoreModelAdd, IgnoreModelChanged, IgnorePlayerAdd, ModelData, ModelData2, ModelDataV,
    ModelMsg, ModelMsgClient, ModelMsgServer, MsgV, PlayerMsgClient, PlayerMsgServer, PlayerServerV,
    ServerMsgV, Transform,
};
use crate::wire::{decode, decode_player_client, enc_msg, enc_player_client, valid_msg};

verus! {

/// An entity of the local world, with what replication needs to know of it.
#[derive(Debug)]
pub struct LocalEntity {
    pub id: ClientEntity,
    pub data: ModelData,
    /// Takes part in replication.
    pub networked: bool,
    /// Present on entities that came from the network.
    pub ignore_add: Option<IgnoreModelAdd>,
    /// Present on entities left out of full reports.
    pub ignore_changed: Option<IgnoreModelChanged>,
    /// Its creation has been announced.
    pub announced: bool,
    /// Changed since the last broadcast.
    pub dirty: bool,
}

/// The mathematical value of a [`LocalEntity`].
pub struct LocalEntityV {
    pub id: ClientEntity,
    pub data: ModelDataV,
    pub networked: bool,
    pub ignored: bool,
    pub unreported: bool,
    pub announced: bool,
    pub dirty: bool,
}

impl View for LocalEntity {
    type V = LocalEntityV;

    open spec fn view(&self) -> LocalEntityV {
        LocalEntityV {
            id: self.id,
            data: self.data@,
            networked: self.networked,
            ignored: self.ignore_add is Some,
            unreported: self.ignore_changed is Some,
            announced: self.announced,
            dirty: self.dirty,
        }
    }
}

/// Why a client dropped a message.
#[derive(Clone, Copy, Debug, PartialEq, Eq, Structural)]
pub enum ApplyError {
    /// The bytes are the encoding of no message.
    Malformed,
    /// The message is one that only clients send.
    NotFromServer,
    /// Every local handle has been given out.
    EntitiesExhausted,
}

/// The entity's creation is still to be announced.
pub open spec fn wants_add(e: LocalEntityV) -> bool {
    e.networked && !e.ignored && !e.announced
}

/// The entity changed and its change is to be announced, given the pairs
/// of the entity map.
pub open spec fn wants_change(e: LocalEntityV, map: Map<u64, u64>) -> bool {
    e.networked && !e.ignored && e.dirty && map.contains_key(e.id.0)
}

/// The entity goes into a full report.
pub open spec fn wants_report(e: LocalEntityV, map: Map<u64, u64>) -> bool {
    e.networked && !e.unreported && map.contains_key(e.id.0)
}

/// What the broadcaster announces as created, entity by entity.
pub open spec fn added_msgs(es: Seq<LocalEntityV>) -> Seq<ClientMsgV>
    decreases es.len(),
{
    if es.len() == 0 {
        Seq::empty()
    } else if wants_add(es.last()) {
        added_msgs(es.drop_last()).push(ClientMsgV::ModelAdded(es.last().id, es.last().data))
    } else {
        added_msgs(es.drop_last())
    }
}

/// What the broadcaster announces as changed, entity by entity.
pub open spec fn changed_msgs(es: Seq<LocalEntityV>, map: Map<u64, u64>) -> Seq<ClientMsgV>
    decreases es.len(),
{
    if es.len() == 0 {
        Seq::empty()
    } else if wants_change(es.last(), map) {
        changed_msgs(es.drop_last(), map).push(
            ClientMsgV::ModelChanged(ServerEntity(map[es.last().id.0]), es.last().data.delta()),
        )
    } else {
        changed_msgs(es.drop_last(), map)
    }
}

/// What a full report holds, entity by entity.
pub open spec fn report_items(es: Seq<LocalEntityV>, map: Map<u64, u64>) -> Seq<(ServerEntity, ModelDataV)>
    decreases es.len(),
{
    if es.len() == 0 {
        Seq::empty()
    } else if wants_report(es.last(), map) {
        report_items(es.drop_last(), map).push((ServerEntity(map[es.last().id.0]), es.last().data))
    } else {
        report_items(es.drop_last(), map)
    }
}

pub open spec fn entities_view(v: Seq<LocalEntity>) -> Seq<LocalEntityV> {
    v.map_values(|e: LocalEntity| e@)
}

pub open spec fn client_msgs_view(v: Seq<ModelMsgClient>) -> Seq<ClientMsgV> {
    v.map_values(|m: ModelMsgClient| m@)
}

/// The entity after its creation was announced.
pub open spec fn after_add(e: LocalEntityV) -> LocalEntityV {
    if wants_add(e) { LocalEntityV { announced: true, ..e } } else { e }
}

/// The entity with no change pending.
pub open spec fn after_change(e: LocalEntityV) -> LocalEntityV {
    LocalEntityV { dirty: false, ..e }
}

/// The entity with its changeable part set to `d`: its kind stays.
pub open spec fn with_delta(e: LocalEntityV, d: ModelData2) -> LocalEntityV {
    LocalEntityV { data: e.data.with_delta(d), dirty: true, ..e }
}

/// The mirror of an entity that another client created.
pub open spec fn mirror(id: u64, d: ModelDataV) -> LocalEntityV {
    LocalEntityV {
        id: ClientEntity(id),
        data: d,
        networked: false,
        ignored: true,
        unreported: false,
        announced: false,
        dirty: false,
    }
}

/// `post` and `r` are the replica and the result after `pre` applied `m`.
pub open spec fn applied(
    pre: StereoKitBevyClient,
    post: StereoKitBevyClient,
    r: Result<Option<ModelMsgClient>, ApplyError>,
    m: MsgV,
) -> bool {
    post.players() == pre.players() && match m {
        MsgV::Client(_) => r == Err::<Option<ModelMsgClient>, ApplyError>(ApplyError::NotFromServer)
            && post.entities() == pre.entities() && post.map() == pre.map()
            && post.next_entity() == pre.next_entity(),
        MsgV::Server(ServerMsgV::ModelAdded(s, d)) => if pre.next_entity() == u64::MAX {
            r == Err::<Option<ModelMsgClient>, ApplyError>(ApplyError::EntitiesExhausted)
                && post.entities() == pre.entities() && post.map() == pre.map()
                && post.next_entity() == pre.next_entity()
        } else {
            r == Ok::<Option<ModelMsgClient>, ApplyError>(None)
                && post.entities() == pre.entities().push(mirror(pre.next_entity(), d))
                && post.map() == pairs_after_insert(pre.map(), pre.next_entity(), s.0)
                && post.next_entity() == pre.next_entity() + 1
        },
        MsgV::Server(ServerMsgV::ModelChanged(s, d)) => r == Ok::<Option<ModelMsgClient>, ApplyError>(None)
            && post.map() == pre.map()
            && post.next_entity() == pre.next_entity()
            && post.entities() == (match left_of(pre.map(), s.0) {
                Some(c) => match index_of(pre.entities(), c) {
                    Some(i) => pre.entities().update(i, with_delta(pre.entities()[i], d)),
                    None => pre.entities(),
                },
                None => pre.entities(),
            }),
        MsgV::Server(ServerMsgV::EntityMap(s, c)) => r == Ok::<Option<ModelMsgClient>, ApplyError>(None)
            && post.entities() == pre.entities()
            && post.map() == pairs_after_insert(pre.map(), c.0, s.0)
            && post.next_entity() == pre.next_entity(),
        MsgV::Server(ServerMsgV::GetAllModelData(req)) => r is Ok && r->Ok_0 is Some
            && r->Ok_0->Some_0@ == ClientMsgV::AllModelData(req, report_items(pre.entities(), pre.map()))
            && post.entities() == pre.entities() && post.map() == pre.map()
            && post.next_entity() == pre.next_entity(),
    }
}

/// A player entity of the local world.
#[derive(Clone, Copy, Debug, PartialEq, Eq, Structural)]
pub struct PlayerEntity {
    pub id: ClientEntity,
    pub transform: Transform,
    /// Takes part in replication.
    pub networked: bool,
    /// Present on players that came from the network.
    pub ignore_add: Option<IgnorePlayerAdd>,
    /// Its creation has been announced.
    pub announced: bool,
    /// Moved since the last broadcast.
    pub dirty: bool,
}

/// The player's creation is still to be announced.
pub open spec fn player_wants_add(p: PlayerEntity) -> bool {
    p.networked && p.ignore_add is None && !p.announced
}

/// The player moved and its move is to be announced.
pub open spec fn player_wants_change(p: PlayerEntity, map: Map<u64, u64>) -> bool {
    p.networked && p.ignore_add is None && p.dirty && map.contains_key(p.id.0)
}

/// The player goes into a full report.
pub open spec fn player_wants_report(p: PlayerEntity, map: Map<u64, u64>) -> bool {
    p.networked && map.contains_key(p.id.0)
}

/// What the broadcaster announces as new players, player by player.
pub open spec fn player_added_msgs(ps: Seq<PlayerEntity>) -> Seq<PlayerServerV>
    decreases ps.len(),
{
    if ps.len() == 0 {
        Seq::empty()
    } else if player_wants_add(ps.last()) {
        player_added_msgs(ps.drop_last()).push(PlayerServerV::PlayerAdded(ps.last().id, ps.last().transform))
    } else {
        player_added_msgs(ps.drop_last())
    }
}

/// What the broadcaster announces as moves, player by player.
pub open spec fn player_changed_msgs(ps: Seq<PlayerEntity>, map: Map<u64, u64>) -> Seq<PlayerServerV>
    decreases ps.len(),
{
    if ps.len() == 0 {
        Seq::empty()
    } else if player_wants_change(ps.last(), map) {
        player_changed_msgs(ps.drop_last(), map).push(
            PlayerServerV::PlayerChanged(ServerEntity(map[ps.last().id.0]), ps.last().transform),
        )
    } else {
        player_changed_msgs(ps.drop_last(), map)
    }
}

/// What a full player report holds, player by player.
pub open spec fn player_report_items(ps: Seq<PlayerEntity>, map: Map<u64, u64>) -> Seq<(ServerEntity, Transform)>
    decreases ps.len(),
{
    if ps.len() == 0 {
        Seq::empty()
    } else if player_wants_report(ps.last(), map) {
        player_report_items(ps.drop_last(), map).push((ServerEntity(map[ps.last().id.0]), ps.last().transform))
    } else {
        player_report_items(ps.drop_last(), map)
    }
}

pub open spec fn player_msgs_view(v: Seq<PlayerMsgServer>) -> Seq<PlayerServerV> {
    v.map_values(|m: PlayerMsgServer| m@)
}

/// The player after its creation was announced.
pub open spec fn player_after_add(p: PlayerEntity) -> PlayerEntity {
    if player_wants_add(p) { PlayerEntity { announced: true, ..p } } else { p }
}

/// The player with no move pending.
pub open spec fn player_after_change(p: PlayerEntity) -> PlayerEntity {
    PlayerEntity { dirty: false, ..p }
}

/// The player moved to `t`.
pub open spec fn player_moved(p: PlayerEntity, t: Transform) -> PlayerEntity {
    PlayerEntity { transform: t, dirty: true, ..p }
}

/// The local copy of a player that another client created: networked, so
/// that it goes into player reports, and tagged so that it is never
/// announced.
pub open spec fn player_mirror(id: u64, t: Transform) -> PlayerEntity {
    PlayerEntity {
        id: ClientEntity(id),
        transform: t,
        networked: true,
        ignore_add: Some(IgnorePlayerAdd),
        announced: false,
        dirty: false,
    }
}

/// The index of the player with handle `id`, if any.
pub open spec fn player_index_of(ps: Seq<PlayerEntity>, id: u64) -> Option<int> {
    if exists|i: int| 0 <= i < ps.len() && ps[i].id.0 == id {
        Some(choose|i: int| 0 <= i < ps.len() && ps[i].id.0 == id)
    } else {
        None
    }
}

/// `post` and `r` are the replica and the result after `pre` applied the
/// player message `m`; model entities are untouched.
pub open spec fn player_applied(
    pre: StereoKitBevyClient,
    post: StereoKitBevyClient,
    r: Result<Option<PlayerMsgServer>, ApplyError>,
    m: PlayerMsgClient,
) -> bool {
    post.entities() == pre.entities() && match m {
        PlayerMsgClient::PlayerAdded(s, t) => if pre.next_entity() == u64::MAX {
            r == Err::<Option<PlayerMsgServer>, ApplyError>(ApplyError::EntitiesExhausted)
                && post.players() == pre.players() && post.map() == pre.map()
                && post.next_entity() == pre.next_entity()
        } else {
            r == Ok::<Option<PlayerMsgServer>, ApplyError>(None)
                && post.players() == pre.players().push(player_mirror(pre.next_entity(), t))
                && post.map() == pairs_after_insert(pre.map(), pre.next_entity(), s.0)
                && post.next_entity() == pre.next_entity() + 1
        },
        PlayerMsgClient::PlayerChanged(s, t) => r == Ok::<Option<PlayerMsgServer>, ApplyError>(None)
            && post.map() == pre.map()
            && post.next_entity() == pre.next_entity()
            && post.players() == (match left_of(pre.map(), s.0) {
                Some(c) => match player_index_of(pre.players(), c) {
                    Some(i) => pre.players().update(i, player_moved(pre.players()[i], t)),
                    None => pre.players(),
                },
                None => pre.players(),
            }),
        PlayerMsgClient::EntityMap(s, c) => r == Ok::<Option<PlayerMsgServer>, ApplyError>(None)
            && post.players() == pre.players()
            && post.map() == pairs_after_insert(pre.map(), c.0, s.0)
            && post.next_entity() == pre.next_entity(),
        PlayerMsgClient::GetAllPlayers(req) => r is Ok && r->Ok_0 is Some
            && r->Ok_0->Some_0@ == PlayerServerV::AllPlayerData(req, player_report_items(pre.players(), pre.map()))
            && post.players() == pre.players() && post.map() == pre.map()
            && post.next_entity() == pre.next_entity(),
    }
}

/// A client's replica: its entity map, its local entities in the order they
/// were made, and the next local handle to give out.
pub struct StereoKitBevyClient {
    map: EntityMap,
    entities: Vec<LocalEntity>,
    players: Vec<PlayerEntity>,
    next_entity: u64,
}

/// The index of the entity with handle `id`, if any.
pub open spec fn index_of(es: Seq<LocalEntityV>, id: u64) -> Option<int> {
    if exists|i: int| 0 <= i < es.len() && es[i].id.0 == id {
        Some(choose|i: int| 0 <= i < es.len() && es[i].id.0 == id)
    } else {
        None
    }
}

impl StereoKitBevyClient {
    pub closed spec fn map(&self) -> Map<u64, u64> {
        self.map@
    }

    pub closed spec fn entities(&self) -> Seq<LocalEntityV> {
        entities_view(self.entities@)
    }

    pub closed spec fn players(&self) -> Seq<PlayerEntity> {
        self.players@
    }

    pub closed spec fn next_entity(&self) -> u64 {
        self.next_entity
    }

    /// The map is a bijection, and every local handle is distinct and below
    /// the next one to give out.
    pub open spec fn wf(&self) -> bool {
        &&& crate::entity_map::injective(self.map())
        &&& forall|i: int, j: int| #![trigger self.entities()[i], self.entities()[j]]
            0 <= i < self.entities().len() && 0 <= j < self.entities().len() && i != j
                ==> self.entities()[i].id != self.entities()[j].id
        &&& forall|i: int| #![trigger self.entities()[i]]
            0 <= i < self.entities().len() ==> self.entities()[i].id.0 < self.next_entity()
        &&& forall|i: int, j: int| #![trigger self.players()[i], self.players()[j]]
            0 <= i < self.players().len() && 0 <= j < self.players().len() && i != j
                ==> self.players()[i].id != self.players()[j].id
        &&& forall|i: int| #![trigger self.players()[i]]
            0 <= i < self.players().len() ==> self.players()[i].id.0 < self.next_entity()
    }

    pub fn new() -> (r: StereoKitBevyClient)
        ensures
            r.wf(),
            r.map() == Map::<u64, u64>::empty(),
            r.entities() == Seq::<LocalEntityV>::empty(),
            r.players() == Seq::<PlayerEntity>::empty(),
            r.next_entity() == 0,
    {
        let r = StereoKitBevyClient { map: EntityMap::new(), entities: Vec::new(), players: Vec::new(), next_entity: 0 };
        assert(r.entities() =~= Seq::<LocalEntityV>::empty());
        r
    }

    fn find(&self, id: ClientEntity) -> (r: Option<usize>)
        requires
            self.wf(),
        ensures
            match r {
                Some(i) => index_of(self.entities(), id.0) == Some(i as int) && i < self.entities().len(),
                None => index_of(self.entities(), id.0) is None,
            },
    {
        let mut i: usize = 0;
        while i < self.entities.len()
            invariant
                self.wf(),
                i <= self.entities@.len(),
                forall|k: int| 0 <= k < i ==> (#[trigger] self.entities@[k]).id.0 != id.0,
            decreases self.entities.len() - i,
        {
            if self.entities[i].id.0 == id.0 {
                proof {
                    let es = self.entities();
                    assert(es[i as int].id.0 == id.0);
                    let j = choose|j: int| 0 <= j < es.len() && es[j].id.0 == id.0;
                    assert(es[j].id == es[i as int].id);
                    assert(self.entities()[j].id == self.entities()[i as int].id);
                    assert(0 <= (i as int) < self.entities().len());
                    assert(0 <= j < self.entities().len());
                    if j != i as int {
                        assert(self.entities()[i as int].id != self.entities()[j].id);
                    }
                    assert(index_of(es, id.0) == Some(i as int));
                }
                return Some(i);
            }
            i = i + 1;
        }
        proof {
            let es = self.entities();
            assert forall|k: int| 0 <= k < es.len() implies es[k].id.0 != id.0 by {
                assert(es[k] == self.entities@[k]@);
            }
        }
        None
    }

    fn push_entity(&mut self, e: LocalEntity) -> (r: ClientEntity)
        requires
            old(self).wf(),
            old(self).next_entity() < u64::MAX,
            e.id.0 == old(self).next_entity(),
        ensures
            final(self).players() == old(self).players(),
            final(self).wf(),
            r == e.id,
            final(self).map() == old(self).map(),
            final(self).entities() == old(self).entities().push(e@),
            final(self).next_entity() == old(self).next_entity() + 1,
    {
        let id = e.id;
        self.entities.push(e);
        self.next_entity = self.next_entity + 1;
        assert(self.entities() =~= old(self).entities().push(e@));
        id
    }

    /// Makes an entity here with payload `data`; `None` when every local
    /// handle has been given out.
    pub fn spawn(&mut self, data: ModelData, networked: bool) -> (r: Option<ClientEntity>)
        requires
            old(self).wf(),
        ensures
            final(self).players() == old(self).players(),
            final(self).wf(),
            final(self).map() == old(self).map(),
            old(self).next_entity() == u64::MAX ==> r is None && final(self).entities() == old(self).entities()
                && final(self).next_entity() == old(self).next_entity(),
            old(self).next_entity() < u64::MAX ==> r == Some(ClientEntity(old(self).next_entity()))
                && final(self).next_entity() == old(self).next_entity() + 1
                && final(self).entities() == old(self).entities().push(LocalEntityV {
                    id: ClientEntity(old(self).next_entity()),
                    data: data@,
                    networked: networked,
                    ignored: false,
                    unreported: false,
                    announced: false,
                    dirty: false,
                }),
    {
        if self.next_entity == u64::MAX {
            return None;
        }
        let e = LocalEntity {
            id: ClientEntity(self.next_entity),
            data,
            networked,
            ignore_add: None,
            ignore_changed: None,
            announced: false,
            dirty: false,
        };
        Some(self.push_entity(e))
    }
    /// Sets the changeable part of entity `i` to `d` and marks it changed.
    fn update_at(&mut self, i: usize, d: ModelData2)
        requires
            old(self).wf(),
            i < old(self).entities().len(),
        ensures
            final(self).players() == old(self).players(),
            final(self).wf(),
            final(self).map() == old(self).map(),
            final(self).next_entity() == old(self).next_entity(),
            final(self).entities() == old(self).entities().update(i as int, with_delta(old(self).entities()[i as int], d)),
    {
        self.entities[i].data.transform = d.transform;
        self.entities[i].data.color128 = d.color128;
        self.entities[i].data.render_layer = d.render_layer;
        self.entities[i].dirty = true;
        proof {
            let n = self.entities();
            let o = old(self).entities();
            assert(n =~= o.update(i as int, with_delta(o[i as int], d))) by {
                assert forall|k: int| 0 <= k < n.len() implies n[k] == o.update(i as int, with_delta(o[i as int], d))[k] by {
                    if k != i as int {
                        assert(self.entities@[k] == old(self).entities@[k]);
                    }
                }
            }
            assert forall|a: int, b: int| #![trigger n[a], n[b]] 0 <= a < n.len() && 0 <= b < n.len() && a != b implies n[a].id != n[b].id by {
                assert(n[a].id == o[a].id && n[b].id == o[b].id);
            }
            assert forall|a: int| #![trigger n[a]] 0 <= a < n.len() implies n[a].id.0 < self.next_entity by {
                assert(n[a].id == o[a].id);
            }
        }
    }

    /// A local change: sets the changeable part of entity `id` to `d` and
    /// marks it changed. `false`, and nothing changes, when there is no such
    /// entity.
    pub fn set_delta(&mut self, id: ClientEntity, d: ModelData2) -> (r: bool)
        requires
            old(self).wf(),
        ensures
            final(self).players() == old(self).players(),
            final(self).wf(),
            final(self).map() == old(self).map(),
            final(self).next_entity() == old(self).next_entity(),
            match index_of(old(self).entities(), id.0) {
                Some(i) => r && final(self).entities() == old(self).entities().update(i, with_delta(old(self).entities()[i], d)),
                None => !r && final(self).entities() == old(self).entities(),
            },
    {
        match self.find(id) {
            Some(i) => {
                self.update_at(i, d);
                true
            },
            None => false,
        }
    }

    /// Announces each entity made here whose creation is not yet announced,
    /// with its full payload, in the order the entities were made.
    pub fn model_added(&mut self) -> (r: Vec<ModelMsgClient>)
        requires
            old(self).wf(),
        ensures
            final(self).players() == old(self).players(),
            final(self).wf(),
            final(self).map() == old(self).map(),
            final(self).next_entity() == old(self).next_entity(),
            final(self).entities() == old(self).entities().map_values(|e: LocalEntityV| after_add(e)),
            client_msgs_view(r@) == added_msgs(old(self).entities()),
    {
        let ghost o = self.entities();
        let mut r: Vec<ModelMsgClient> = Vec::new();
        let mut i: usize = 0;
        assert(o.subrange(0, 0) =~= Seq::<LocalEntityV>::empty());
        assert(client_msgs_view(r@) =~= Seq::<ClientMsgV>::empty());
        while i < self.entities.len()
            invariant
                i <= self.entities@.len() == o.len(),
                self.map() == old(self).map(),
                self.next_entity() == old(self).next_entity(),
                self.players() == old(self).players(),
                o == old(self).entities(),
                old(self).wf(),
                forall|k: int| 0 <= k < i ==> self.entities()[k] == after_add(#[trigger] o[k]),
                forall|k: int| i <= k < o.len() ==> self.entities()[k] == #[trigger] o[k],
                client_msgs_view(r@) == added_msgs(o.subrange(0, i as int)),
            decreases self.entities.len() - i,
        {
            let ghost prev = r@;
            assert(self.entities()[i as int] == o[i as int]);
            let e = &self.entities[i];
            let add = e.networked && e.ignore_add.is_none() && !e.announced;
            if add {
                let m = ModelMsgClient::ModelAdded(e.id, e.data.duplicate());
                r.push(m);
                self.entities[i].announced = true;
                assert(client_msgs_view(r@) =~= client_msgs_view(prev).push(m@));
            }
            proof {
                let pre = o.subrange(0, i + 1);
                assert(pre.drop_last() =~= o.subrange(0, i as int));
                assert(pre.last() == o[i as int]);
            }
            i = i + 1;
        }
        proof {
            let n = self.entities();
            assert(o.subrange(0, i as int) =~= o);
            assert(n =~= o.map_values(|e: LocalEntityV| after_add(e)));
            assert forall|a: int, b: int| #![trigger n[a], n[b]] 0 <= a < n.len() && 0 <= b < n.len() && a != b implies n[a].id != n[b].id by {
                assert(n[a].id == o[a].id && n[b].id == o[b].id);
            }
            assert forall|a: int| #![trigger n[a]] 0 <= a < n.len() implies n[a].id.0 < self.next_entity by {
                assert(n[a].id == o[a].id);
            }
        }
        r
    }
    /// Announces each entity made here that changed and whose server handle
    /// is known, with its changeable part only; then no change is pending on
    /// any entity. A change made before the server handle is known is not
    /// announced.
    pub fn model_changed(&mut self) -> (r: Vec<ModelMsgClient>)
        requires
            old(self).wf(),
        ensures
            final(self).players() == old(self).players(),
            final(self).wf(),
            final(self).map() == old(self).map(),
            final(self).next_entity() == old(self).next_entity(),
            final(self).entities() == old(self).entities().map_values(|e: LocalEntityV| after_change(e)),
            client_msgs_view(r@) == changed_msgs(old(self).entities(), old(self).map()),
    {
        let ghost o = self.entities();
        let mut r: Vec<ModelMsgClient> = Vec::new();
        let mut i: usize = 0;
        assert(o.subrange(0, 0) =~= Seq::<LocalEntityV>::empty());
        assert(client_msgs_view(r@) =~= Seq::<ClientMsgV>::empty());
        while i < self.entities.len()
            invariant
                i <= self.entities@.len() == o.len(),
                self.map() == old(self).map(),
                self.next_entity() == old(self).next_entity(),
                self.players() == old(self).players(),
                o == old(self).entities(),
                forall|k: int| 0 <= k < i ==> self.entities()[k] == after_change(#[trigger] o[k]),
                forall|k: int| i <= k < o.len() ==> self.entities()[k] == #[trigger] o[k],
                client_msgs_view(r@) == changed_msgs(o.subrange(0, i as int), self.map()),
            decreases self.entities.len() - i,
        {
            let ghost prev = r@;
            assert(self.entities()[i as int] == o[i as int]);
            let e = &self.entities[i];
            if e.networked && e.ignore_add.is_none() && e.dirty {
                match self.map.get_by_left(e.id) {
                    Some(server_entity) => {
                        let m = ModelMsgClient::ModelChanged(server_entity, e.data.delta());
                        r.push(m);
                        assert(client_msgs_view(r@) =~= client_msgs_view(prev).push(m@));
                    },
                    None => {},
                }
            }
            self.entities[i].dirty = false;
            proof {
                let pre = o.subrange(0, i + 1);
                assert(pre.drop_last() =~= o.subrange(0, i as int));
                assert(pre.last() == o[i as int]);
            }
            i = i + 1;
        }
        proof {
            let n = self.entities();
            assert(o.subrange(0, i as int) =~= o);
            assert(n =~= o.map_values(|e: LocalEntityV| after_change(e)));
            assert forall|a: int, b: int| #![trigger n[a], n[b]] 0 <= a < n.len() && 0 <= b < n.len() && a != b implies n[a].id != n[b].id by {
                assert(n[a].id == o[a].id && n[b].id == o[b].id);
            }
            assert forall|a: int| #![trigger n[a]] 0 <= a < n.len() implies n[a].id.0 < self.next_entity by {
                assert(n[a].id == o[a].id);
            }
        }
        r
    }

    /// The entities that a full report holds: each networked entity that is
    /// not left out of reports and whose server handle is known.
    fn report(&self) -> (r: Vec<(ServerEntity, ModelData)>)
        requires
            self.wf(),
        ensures
            crate::message::items_view(r@) == report_items(self.entities(), self.map()),
    {
        let ghost o = self.entities();
        let mut r: Vec<(ServerEntity, ModelData)> = Vec::new();
        let mut i: usize = 0;
        assert(o.subrange(0, 0) =~= Seq::<LocalEntityV>::empty());
        assert(crate::message::items_view(r@) =~= Seq::<(ServerEntity, ModelDataV)>::empty());
        while i < self.entities.len()
            invariant
                i <= self.entities@.len() == o.len(),
                o == self.entities(),
                crate::message::items_view(r@) == report_items(o.subrange(0, i as int), self.map()),
            decreases self.entities.len() - i,
        {
            let ghost prev = r@;
            let e = &self.entities[i];
            assert(o[i as int] == e@);
            if e.networked && e.ignore_changed.is_none() {
                match self.map.get_by_left(e.id) {
                    Some(server_entity) => {
                        let it = (server_entity, e.data.duplicate());
                        r.push(it);
                        assert(crate::message::items_view(r@) =~= crate::message::items_view(prev).push((it.0, it.1@)));
                    },
                    None => {},
                }
            }
            proof {
                let pre = o.subrange(0, i + 1);
                assert(pre.drop_last() =~= o.subrange(0, i as int));
                assert(pre.last() == o[i as int]);
            }
            i = i + 1;
        }
        assert(o.subrange(0, i as int) =~= o);
        r
    }

    /// Applies a message from the server.
    ///
    /// A new entity becomes a local mirror, tagged as coming from the
    /// network, and is paired with its server handle. A change goes to the
    /// entity paired with its server handle, and to nothing when there is
    /// none. A pairing goes into the map. A request for a report is answered
    /// with one.
    pub fn client(&mut self, msg: ModelMsg) -> (r: Result<Option<ModelMsgClient>, ApplyError>)
        requires
            old(self).wf(),
        ensures
            final(self).wf(),
            applied(*old(self), *final(self), r, msg@),
    {
        let msg = match msg {
            ModelMsg::Server(msg) => msg,
            ModelMsg::Client(_) => {
                return Err(ApplyError::NotFromServer);
            },
        };
        match msg {
            ModelMsgServer::ModelAdded(server_entity, model_data) => {
                if self.next_entity == u64::MAX {
                    return Err(ApplyError::EntitiesExhausted);
                }
                let e = LocalEntity {
                    id: ClientEntity(self.next_entity),
                    data: model_data,
                    networked: false,
                    ignore_add: Some(IgnoreModelAdd),
                    ignore_changed: None,
                    announced: false,
                    dirty: false,
                };
                let client_entity = self.push_entity(e);
                self.map.insert(client_entity, server_entity);
                Ok(None)
            },
            ModelMsgServer::ModelChanged(server_entity, delta) => {
                proof { crate::entity_map::lemma_left_of_injective(self.map@); }
                match self.map.get_by_right(server_entity) {
                    Some(client_entity) => {
                        match self.find(client_entity) {
                            Some(i) => self.update_at(i, delta),
                            None => {},
                        }
                    },
                    None => {},
                }
                Ok(None)
            },
            ModelMsgServer::EntityMap(server_entity, client_entity) => {
                self.map.insert(client_entity, server_entity);
                Ok(None)
            },
            ModelMsgServer::GetAllModelData(client_id) => {
                let models = self.report();
                Ok(Some(ModelMsgClient::AllModelData(client_id, models)))
            },
        }
    }

    /// Decodes `bytes` from the server and applies the message; bytes that
    /// encode no message are dropped with `Malformed`.
    pub fn _client(&mut self, bytes: &[u8]) -> (r: Result<Option<ModelMsgClient>, ApplyError>)
        requires
            old(self).wf(),
        ensures
            final(self).wf(),
            (forall|w: MsgV| valid_msg(w) ==> bytes@ != #[trigger] enc_msg(w)) ==> (
                r == Err::<Option<ModelMsgClient>, ApplyError>(ApplyError::Malformed)
                && final(self).entities() == old(self).entities() && final(self).map() == old(self).map()
                && final(self).players() == old(self).players()
                && final(self).next_entity() == old(self).next_entity()),
            forall|w: MsgV| valid_msg(w) && bytes@ == #[trigger] enc_msg(w) ==> applied(*old(self), *final(self), r, w),
    {
        match decode(bytes) {
            Some(m) => self.client(m),
            None => Err(ApplyError::Malformed),
        }
    }

    /// The server entity paired with local entity `c`.
    pub fn server_entity_of(&self, c: ClientEntity) -> (r: Option<ServerEntity>)
        ensures
            r == (if self.map().contains_key(c.0) { Some(ServerEntity(self.map()[c.0])) } else { None::<ServerEntity> }),
    {
        self.map.get_by_left(c)
    }

    /// The local entity paired with server entity `s`.
    pub fn client_entity_of(&self, s: ServerEntity) -> (r: Option<ClientEntity>)
        requires
            self.wf(),
        ensures
            r == (match left_of(self.map(), s.0) {
                Some(c) => Some(ClientEntity(c)),
                None => None::<ClientEntity>,
            }),
    {
        self.map.get_by_right(s)
    }

    /// The payload of local entity `id`.
    pub fn payload(&self, id: ClientEntity) -> (r: Option<ModelData>)
        requires
            self.wf(),
        ensures
            match index_of(self.entities(), id.0) {
                Some(i) => r is Some && r->0@ == self.entities()[i].data,
                None => r is None,
            },
    {
        match self.find(id) {
            Some(i) => Some(self.entities[i].data.duplicate()),
            None => None,
        }
    }

    /// Whether local entity `id` came from the network; `None` when there is
    /// no such entity.
    pub fn is_mirror(&self, id: ClientEntity) -> (r: Option<bool>)
        requires
            self.wf(),
        ensures
            match index_of(self.entities(), id.0) {
                Some(i) => r == Some(self.entities()[i].ignored),
                None => r is None,
            },
    {
        match self.find(id) {
            Some(i) => Some(self.entities[i].ignore_add.is_some()),
            None => None,
        }
    }

    fn find_player(&self, id: ClientEntity) -> (r: Option<usize>)
        requires
            self.wf(),
        ensures
            match r {
                Some(i) => player_index_of(self.players(), id.0) == Some(i as int) && i < self.players().len(),
                None => player_index_of(self.players(), id.0) is None,
            },
    {
        let mut i: usize = 0;
        while i < self.players.len()
            invariant
                self.wf(),
                i <= self.players@.len(),
                forall|k: int| 0 <= k < i ==> (#[trigger] self.players@[k]).id.0 != id.0,
            decreases self.players.len() - i,
        {
            if self.players[i].id.0 == id.0 {
                proof {
                    let ps = self.players();
                    let j = choose|j: int| 0 <= j < ps.len() && ps[j].id.0 == id.0;
                    if j != i as int {
                        assert(self.players()[i as int].id != self.players()[j].id);
                    }
                }
                return Some(i);
            }
            i = i + 1;
        }
        None
    }

    fn push_player(&mut self, p: PlayerEntity) -> (r: ClientEntity)
        requires
            old(self).wf(),
            old(self).next_entity() < u64::MAX,
            p.id.0 == old(self).next_entity(),
        ensures
            final(self).wf(),
            r == p.id,
            final(self).map() == old(self).map(),
            final(self).entities() == old(self).entities(),
            final(self).players() == old(self).players().push(p),
            final(self).next_entity() == old(self).next_entity() + 1,
    {
        self.players.push(p);
        self.next_entity = self.next_entity + 1;
        p.id
    }

    /// Sets the transform of player `i` to `t` and marks it moved.
    fn move_player_at(&mut self, i: usize, t: Transform)
        requires
            old(self).wf(),
            i < old(self).players().len(),
        ensures
            final(self).wf(),
            final(self).map() == old(self).map(),
            final(self).entities() == old(self).entities(),
            final(self).next_entity() == old(self).next_entity(),
            final(self).players() == old(self).players().update(i as int, player_moved(old(self).players()[i as int], t)),
    {
        let p = self.players[i];
        self.players.set(i, PlayerEntity { transform: t, dirty: true, ..p });
        proof {
            let n = self.players();
            let o = old(self).players();
            assert forall|a: int, b: int| #![trigger n[a], n[b]] 0 <= a < n.len() && 0 <= b < n.len() && a != b implies n[a].id != n[b].id by {
                assert(n[a].id == o[a].id && n[b].id == o[b].id);
            }
            assert forall|a: int| #![trigger n[a]] 0 <= a < n.len() implies n[a].id.0 < self.next_entity by {
                assert(n[a].id == o[a].id);
            }
        }
    }

    /// Makes a networked player here at `t`; `None` when every local handle
    /// has been given out.
    pub fn spawn_player(&mut self, t: Transform) -> (r: Option<ClientEntity>)
        requires
            old(self).wf(),
        ensures
            final(self).wf(),
            final(self).map() == old(self).map(),
            final(self).entities() == old(self).entities(),
            old(self).next_entity() == u64::MAX ==> r is None && final(self).players() == old(self).players()
                && final(self).next_entity() == old(self).next_entity(),
            old(self).next_entity() < u64::MAX ==> r == Some(ClientEntity(old(self).next_entity()))
                && final(self).next_entity() == old(self).next_entity() + 1
                && final(self).players() == old(self).players().push(PlayerEntity {
                    id: ClientEntity(old(self).next_entity()),
                    transform: t,
                    networked: true,
                    ignore_add: None,
                    announced: false,
                    dirty: false,
                }),
    {
        if self.next_entity == u64::MAX {
            return None;
        }
        let p = PlayerEntity {
            id: ClientEntity(self.next_entity),
            transform: t,
            networked: true,
            ignore_add: None,
            announced: false,
            dirty: false,
        };
        Some(self.push_player(p))
    }

    /// A local move: sets the transform of player `id` to `t` and marks it
    /// moved. `false`, and nothing changes, when there is no such player.
    pub fn set_player_transform(&mut self, id: ClientEntity, t: Transform) -> (r: bool)
        requires
            old(self).wf(),
        ensures
            final(self).wf(),
            final(self).map() == old(self).map(),
            final(self).entities() == old(self).entities(),
            final(self).next_entity() == old(self).next_entity(),
            match player_index_of(old(self).players(), id.0) {
                Some(i) => r && final(self).players() == old(self).players().update(i, player_moved(old(self).players()[i], t)),
                None => !r && final(self).players() == old(self).players(),
            },
    {
        match self.find_player(id) {
            Some(i) => {
                self.move_player_at(i, t);
                true
            },
            None => false,
        }
    }

    /// Announces each player made here whose creation is not yet announced,
    /// with its transform, in the order the players were made.
    pub fn player_added(&mut self) -> (r: Vec<PlayerMsgServer>)
        requires
            old(self).wf(),
        ensures
            final(self).wf(),
            final(self).map() == old(self).map(),
            final(self).entities() == old(self).entities(),
            final(self).next_entity() == old(self).next_entity(),
            final(self).players() == old(self).players().map_values(|p: PlayerEntity| player_after_add(p)),
            player_msgs_view(r@) == player_added_msgs(old(self).players()),
    {
        let ghost o = self.players();
        let mut r: Vec<PlayerMsgServer> = Vec::new();
        let mut i: usize = 0;
        assert(o.subrange(0, 0) =~= Seq::<PlayerEntity>::empty());
        assert(player_msgs_view(r@) =~= Seq::<PlayerServerV>::empty());
        while i < self.players.len()
            invariant
                i <= self.players@.len() == o.len(),
                self.map() == old(self).map(),
                self.next_entity() == old(self).next_entity(),
                self.entities() == old(self).entities(),
                o == old(self).players(),
                forall|k: int| 0 <= k < i ==> self.players()[k] == player_after_add(#[trigger] o[k]),
                forall|k: int| i <= k < o.len() ==> self.players()[k] == #[trigger] o[k],
                player_msgs_view(r@) == player_added_msgs(o.subrange(0, i as int)),
            decreases self.players.len() - i,
        {
            let ghost prev = r@;
            let p = self.players[i];
            assert(p == o[i as int]);
            if p.networked && p.ignore_add.is_none() && !p.announced {
                let m = PlayerMsgServer::PlayerAdded(p.id, p.transform);
                r.push(m);
                self.players.set(i, PlayerEntity { announced: true, ..p });
                assert(player_msgs_view(r@) =~= player_msgs_view(prev).push(m@));
            }
            proof {
                let pre = o.subrange(0, i + 1);
                assert(pre.drop_last() =~= o.subrange(0, i as int));
                assert(pre.last() == o[i as int]);
            }
            i = i + 1;
        }
        proof {
            let n = self.players();
            assert(o.subrange(0, i as int) =~= o);
            assert(n =~= o.map_values(|p: PlayerEntity| player_after_add(p)));
            assert forall|a: int, b: int| #![trigger n[a], n[b]] 0 <= a < n.len() && 0 <= b < n.len() && a != b implies n[a].id != n[b].id by {
                assert(n[a].id == o[a].id && n[b].id == o[b].id);
            }
            assert forall|a: int| #![trigger n[a]] 0 <= a < n.len() implies n[a].id.0 < self.next_entity by {
                assert(n[a].id == o[a].id);
            }
        }
        r
    }

    /// Announces each player made here that moved and whose server handle is
    /// known, with its transform; then no move is pending on any player.
    pub fn player_changed(&mut self) -> (r: Vec<PlayerMsgServer>)
        requires
            old(self).wf(),
        ensures
            final(self).wf(),
            final(self).map() == old(self).map(),
            final(self).entities() == old(self).entities(),
            final(self).next_entity() == old(self).next_entity(),
            final(self).players() == old(self).players().map_values(|p: PlayerEntity| player_after_change(p)),
            player_msgs_view(r@) == player_changed_msgs(old(self).players(), old(self).map()),
    {
        let ghost o = self.players();
        let mut r: Vec<PlayerMsgServer> = Vec::new();
        let mut i: usize = 0;
        assert(o.subrange(0, 0) =~= Seq::<PlayerEntity>::empty());
        assert(player_msgs_view(r@) =~= Seq::<PlayerServerV>::empty());
        while i < self.players.len()
            invariant
                i <= self.players@.len() == o.len(),
                self.map() == old(self).map(),
                self.next_entity() == old(self).next_entity(),
                self.entities() == old(self).entities(),
                o == old(self).players(),
                forall|k: int| 0 <= k < i ==> self.players()[k] == player_after_change(#[trigger] o[k]),
                forall|k: int| i <= k < o.len() ==> self.players()[k] == #[trigger] o[k],
                player_msgs_view(r@) == player_changed_msgs(o.subrange(0, i as int), self.map()),
            decreases self.players.len() - i,
        {
            let ghost prev = r@;
            let p = self.players[i];
            assert(p == o[i as int]);
            if p.networked && p.ignore_add.is_none() && p.dirty {
                match self.map.get_by_left(p.id) {
                    Some(server_entity) => {
                        let m = PlayerMsgServer::PlayerChanged(server_entity, p.transform);
                        r.push(m);
                        assert(player_msgs_view(r@) =~= player_msgs_view(prev).push(m@));
                    },
                    None => {},
                }
            }
            self.players.set(i, PlayerEntity { dirty: false, ..p });
            proof {
                let pre = o.subrange(0, i + 1);
                assert(pre.drop_last() =~= o.subrange(0, i as int));
                assert(pre.last() == o[i as int]);
            }
            i = i + 1;
        }
        proof {
            let n = self.players();
            assert(o.subrange(0, i as int) =~= o);
            assert(n =~= o.map_values(|p: PlayerEntity| player_after_change(p)));
            assert forall|a: int, b: int| #![trigger n[a], n[b]] 0 <= a < n.len() && 0 <= b < n.len() && a != b implies n[a].id != n[b].id by {
                assert(n[a].id == o[a].id && n[b].id == o[b].id);
            }
            assert forall|a: int| #![trigger n[a]] 0 <= a < n.len() implies n[a].id.0 < self.next_entity by {
                assert(n[a].id == o[a].id);
            }
        }
        r
    }

    /// The players that a full player report holds: each networked player
    /// whose server handle is known.
    fn player_report(&self) -> (r: Vec<(ServerEntity, Transform)>)
        ensures
            r@ == player_report_items(self.players(), self.map()),
    {
        let ghost o = self.players();
        let mut r: Vec<(ServerEntity, Transform)> = Vec::new();
        let mut i: usize = 0;
        assert(o.subrange(0, 0) =~= Seq::<PlayerEntity>::empty());
        assert(r@ =~= Seq::<(ServerEntity, Transform)>::empty());
        while i < self.players.len()
            invariant
                i <= self.players@.len() == o.len(),
                o == self.players(),
                r@ == player_report_items(o.subrange(0, i as int), self.map()),
            decreases self.players.len() - i,
        {
            let p = self.players[i];
            assert(o[i as int] == p);
            if p.networked {
                match self.map.get_by_left(p.id) {
                    Some(server_entity) => {
                        r.push((server_entity, p.transform));
                    },
                    None => {},
                }
            }
            proof {
                let pre = o.subrange(0, i + 1);
                assert(pre.drop_last() =~= o.subrange(0, i as int));
                assert(pre.last() == o[i as int]);
            }
            i = i + 1;
        }
        assert(o.subrange(0, i as int) =~= o);
        r
    }

    /// Applies a player message from the server.
    ///
    /// A new player becomes a local networked copy, tagged as coming from the
    /// network, and is paired with its server handle. A move goes to the
    /// player paired with its server handle, and to nothing when there is
    /// none. A pairing goes into the map. A request for a player report is
    /// answered with one.
    pub fn player_client(&mut self, msg: PlayerMsgClient) -> (r: Result<Option<PlayerMsgServer>, ApplyError>)
        requires
            old(self).wf(),
        ensures
            final(self).wf(),
            player_applied(*old(self), *final(self), r, msg),
    {
        match msg {
            PlayerMsgClient::PlayerAdded(server_entity, transform) => {
                if self.next_entity == u64::MAX {
                    return Err(ApplyError::EntitiesExhausted);
                }
                let p = PlayerEntity {
                    id: ClientEntity(self.next_entity),
                    transform,
                    networked: true,
                    ignore_add: Some(IgnorePlayerAdd),
                    announced: false,
                    dirty: false,
                };
                let client_entity = self.push_player(p);
                self.map.insert(client_entity, server_entity);
                Ok(None)
            },
            PlayerMsgClient::PlayerChanged(server_entity, transform) => {
                proof { crate::entity_map::lemma_left_of_injective(self.map@); }
                match self.map.get_by_right(server_entity) {
                    Some(client_entity) => {
                        match self.find_player(client_entity) {
                            Some(i) => self.move_player_at(i, transform),
                            None => {},
                        }
                    },
                    None => {},
                }
                Ok(None)
            },
            PlayerMsgClient::EntityMap(server_entity, client_entity) => {
                self.map.insert(client_entity, server_entity);
                Ok(None)
            },
            PlayerMsgClient::GetAllPlayers(client_id) => {
                let players = self.player_report();
                Ok(Some(PlayerMsgServer::AllPlayerData(client_id, players)))
            },
        }
    }

    /// Decodes `bytes` from the server as a player message and applies it;
    /// bytes that encode no player message are dropped with `Malformed`.
    pub fn _player_client(&mut self, bytes: &[u8]) -> (r: Result<Option<PlayerMsgServer>, ApplyError>)
        requires
            old(self).wf(),
        ensures
            final(self).wf(),
            (forall|w: PlayerMsgClient| bytes@ != #[trigger] enc_player_client(w)) ==> (
                r == Err::<Option<PlayerMsgServer>, ApplyError>(ApplyError::Malformed)
                && final(self).entities() == old(self).entities() && final(self).map() == old(self).map()
                && final(self).players() == old(self).players()
                && final(self).next_entity() == old(self).next_entity()),
            forall|w: PlayerMsgClient| bytes@ == #[trigger] enc_player_client(w) ==> player_applied(*old(self), *final(self), r, w),
    {
        match decode_player_client(bytes) {
            Some(m) => self.player_client(m),
            None => Err(ApplyError::Malformed),
        }
    }

    /// The transform of player `id`.
    pub fn player_transform(&self, id: ClientEntity) -> (r: Option<Transform>)
        requires
            self.wf(),
        ensures
            match player_index_of(self.players(), id.0) {
                Some(i) => r == Some(self.players()[i].transform),
                None => r is None,
            },
    {
        match self.find_player(id) {
            Some(i) => Some(self.players[i].transform),
            None => None,
        }
    }

    /// The number of local entities.
    pub fn len(&self) -> (r: usize)
        ensures
            r == self.entities().len(),
    {
        self.entities.len()
    }
}

} // verus!

verus! {

/// No two entities share a handle.
pub open spec fn distinct_ids(es: Seq<LocalEntityV>) -> bool {
    forall|a: int, b: int| #![trigger es[a], es[b]]
        0 <= a < es.len() && 0 <= b < es.len() && a != b ==> es[a].id != es[b].id
}

proof fn lemma_added_from(es: Seq<LocalEntityV>)
    ensures
        forall|k: int| #![trigger added_msgs(es)[k]] 0 <= k < added_msgs(es).len() ==> exists|j: int|
            0 <= j < es.len() && wants_add(#[trigger] es[j])
                && added_msgs(es)[k] == ClientMsgV::ModelAdded(es[j].id, es[j].data),
    decreases es.len(),
{
    if es.len() > 0 {
        let h = es.drop_last();
        lemma_added_from(h);
        assert forall|k: int| #![trigger added_msgs(es)[k]] 0 <= k < added_msgs(es).len() implies exists|j: int|
            0 <= j < es.len() && wants_add(#[trigger] es[j])
                && added_msgs(es)[k] == ClientMsgV::ModelAdded(es[j].id, es[j].data) by {
            if k < added_msgs(h).len() {
                assert(added_msgs(es)[k] == added_msgs(h)[k]);
                let j = choose|j: int| 0 <= j < h.len() && wants_add(#[trigger] h[j])
                    && added_msgs(h)[k] == ClientMsgV::ModelAdded(h[j].id, h[j].data);
                assert(es[j] == h[j]);
            } else {
                assert(es[es.len() - 1] == es.last());
            }
        }
    }
}

proof fn lemma_changed_from(es: Seq<LocalEntityV>, map: Map<u64, u64>)
    ensures
        forall|k: int| #![trigger changed_msgs(es, map)[k]] 0 <= k < changed_msgs(es, map).len() ==> exists|j: int|
            0 <= j < es.len() && wants_change(#[trigger] es[j], map)
                && changed_msgs(es, map)[k] == ClientMsgV::ModelChanged(ServerEntity(map[es[j].id.0]), es[j].data.delta()),
    decreases es.len(),
{
    if es.len() > 0 {
        let h = es.drop_last();
        lemma_changed_from(h, map);
        assert forall|k: int| #![trigger changed_msgs(es, map)[k]] 0 <= k < changed_msgs(es, map).len() implies exists|j: int|
            0 <= j < es.len() && wants_change(#[trigger] es[j], map)
                && changed_msgs(es, map)[k] == ClientMsgV::ModelChanged(ServerEntity(map[es[j].id.0]), es[j].data.delta()) by {
            if k < changed_msgs(h, map).len() {
                assert(changed_msgs(es, map)[k] == changed_msgs(h, map)[k]);
                let j = choose|j: int| 0 <= j < h.len() && wants_change(#[trigger] h[j], map)
                    && changed_msgs(h, map)[k] == ClientMsgV::ModelChanged(ServerEntity(map[h[j].id.0]), h[j].data.delta());
                assert(es[j] == h[j]);
            } else {
                assert(es[es.len() - 1] == es.last());
            }
        }
    }
}

/// An entity that came from the network is never announced by this client:
/// no creation the broadcaster sends names it, and no change it sends names
/// the server handle paired with it, whatever state the replica is in.
pub proof fn lemma_mirror_never_announced(es: Seq<LocalEntityV>, map: Map<u64, u64>, i: int)
    requires
        0 <= i < es.len(),
        es[i].ignored,
        distinct_ids(es),
        injective(map),
    ensures
        forall|k: int| #![trigger added_msgs(es)[k]] 0 <= k < added_msgs(es).len()
            ==> added_msgs(es)[k]->ModelAdded_0 != es[i].id,
        forall|k: int| #![trigger changed_msgs(es, map)[k]] 0 <= k < changed_msgs(es, map).len()
            && map.contains_key(es[i].id.0) ==> changed_msgs(es, map)[k]->ModelChanged_0 != ServerEntity(map[es[i].id.0]),
{
    lemma_added_from(es);
    lemma_changed_from(es, map);
    assert forall|k: int| #![trigger added_msgs(es)[k]] 0 <= k < added_msgs(es).len()
        implies added_msgs(es)[k]->ModelAdded_0 != es[i].id by {
        let j = choose|j: int| 0 <= j < es.len() && wants_add(#[trigger] es[j])
            && added_msgs(es)[k] == ClientMsgV::ModelAdded(es[j].id, es[j].data);
        if j != i {
            assert(es[j].id != es[i].id);
        }
    }
    assert forall|k: int| #![trigger changed_msgs(es, map)[k]] 0 <= k < changed_msgs(es, map).len()
        && map.contains_key(es[i].id.0) implies changed_msgs(es, map)[k]->ModelChanged_0 != ServerEntity(map[es[i].id.0]) by {
        let j = choose|j: int| 0 <= j < es.len() && wants_change(#[trigger] es[j], map)
            && changed_msgs(es, map)[k] == ClientMsgV::ModelChanged(ServerEntity(map[es[j].id.0]), es[j].data.delta());
        if j != i {
            assert(es[j].id != es[i].id);
            assert(es[j].id.0 != es[i].id.0);
        }
    }
}

/// Applying a change never alters what kind of object an entity is, nor
/// whether it came from the network; it sets exactly the changeable part.
pub proof fn lemma_change_keeps_kind(e: LocalEntityV, d: ModelData2)
    ensures
        with_delta(e, d).data.model_info == e.data.model_info,
        with_delta(e, d).ignored == e.ignored,
        with_delta(e, d).id == e.id,
        with_delta(e, d).data.delta() == d,
{
}

/// No two players share a handle.
pub open spec fn distinct_player_ids(ps: Seq<PlayerEntity>) -> bool {
    forall|a: int, b: int| #![trigger ps[a], ps[b]]
        0 <= a < ps.len() && 0 <= b < ps.len() && a != b ==> ps[a].id != ps[b].id
}

proof fn lemma_player_added_from(ps: Seq<PlayerEntity>)
    ensures
        forall|k: int| #![trigger player_added_msgs(ps)[k]] 0 <= k < player_added_msgs(ps).len() ==> exists|j: int|
            0 <= j < ps.len() && player_wants_add(#[trigger] ps[j])
                && player_added_msgs(ps)[k] == PlayerServerV::PlayerAdded(ps[j].id, ps[j].transform),
    decreases ps.len(),
{
    if ps.len() > 0 {
        let h = ps.drop_last();
        lemma_player_added_from(h);
        assert forall|k: int| #![trigger player_added_msgs(ps)[k]] 0 <= k < player_added_msgs(ps).len() implies exists|j: int|
            0 <= j < ps.len() && player_wants_add(#[trigger] ps[j])
                && player_added_msgs(ps)[k] == PlayerServerV::PlayerAdded(ps[j].id, ps[j].transform) by {
            if k < player_added_msgs(h).len() {
                assert(player_added_msgs(ps)[k] == player_added_msgs(h)[k]);
                let j = choose|j: int| 0 <= j < h.len() && player_wants_add(#[trigger] h[j])
                    && player_added_msgs(h)[k] == PlayerServerV::PlayerAdded(h[j].id, h[j].transform);
                assert(ps[j] == h[j]);
            } else {
                assert(ps[ps.len() - 1] == ps.last());
            }
        }
    }
}

proof fn lemma_player_changed_from(ps: Seq<PlayerEntity>, map: Map<u64, u64>)
    ensures
        forall|k: int| #![trigger player_changed_msgs(ps, map)[k]] 0 <= k < player_changed_msgs(ps, map).len() ==> exists|j: int|
            0 <= j < ps.len() && player_wants_change(#[trigger] ps[j], map)
                && player_changed_msgs(ps, map)[k] == PlayerServerV::PlayerChanged(ServerEntity(map[ps[j].id.0]), ps[j].transform),
    decreases ps.len(),
{
    if ps.len() > 0 {
        let h = ps.drop_last();
        lemma_player_changed_from(h, map);
        assert forall|k: int| #![trigger player_changed_msgs(ps, map)[k]] 0 <= k < player_changed_msgs(ps, map).len() implies exists|j: int|
            0 <= j < ps.len() && player_wants_change(#[trigger] ps[j], map)
                && player_changed_msgs(ps, map)[k] == PlayerServerV::PlayerChanged(ServerEntity(map[ps[j].id.0]), ps[j].transform) by {
            if k < player_changed_msgs(h, map).len() {
                assert(player_changed_msgs(ps, map)[k] == player_changed_msgs(h, map)[k]);
                let j = choose|j: int| 0 <= j < h.len() && player_wants_change(#[trigger] h[j], map)
                    && player_changed_msgs(h, map)[k] == PlayerServerV::PlayerChanged(ServerEntity(map[h[j].id.0]), h[j].transform);
                assert(ps[j] == h[j]);
            } else {
                assert(ps[ps.len() - 1] == ps.last());
            }
        }
    }
}

/// A player that came from the network is never announced by this client:
/// no new player the broadcaster sends names it, and no move it sends names
/// the server handle paired with it, whatever state the replica is in.
pub proof fn lemma_player_mirror_never_announced(ps: Seq<PlayerEntity>, map: Map<u64, u64>, i: int)
    requires
        0 <= i < ps.len(),
        ps[i].ignore_add is Some,
        distinct_player_ids(ps),
        injective(map),
    ensures
        forall|k: int| #![trigger player_added_msgs(ps)[k]] 0 <= k < player_added_msgs(ps).len()
            ==> player_added_msgs(ps)[k]->PlayerAdded_0 != ps[i].id,
        forall|k: int| #![trigger player_changed_msgs(ps, map)[k]] 0 <= k < player_changed_msgs(ps, map).len()
            && map.contains_key(ps[i].id.0) ==> player_changed_msgs(ps, map)[k]->PlayerChanged_0 != ServerEntity(map[ps[i].id.0]),
{
    lemma_player_added_from(ps);
    lemma_player_changed_from(ps, map);
    assert forall|k: int| #![trigger player_added_msgs(ps)[k]] 0 <= k < player_added_msgs(ps).len()
        implies player_added_msgs(ps)[k]->PlayerAdded_0 != ps[i].id by {
        let j = choose|j: int| 0 <= j < ps.len() && player_wants_add(#[trigger] ps[j])
            && player_added_msgs(ps)[k] == PlayerServerV::PlayerAdded(ps[j].id, ps[j].transform);
        if j != i {
            assert(ps[j].id != ps[i].id);
        }
    }
    assert forall|k: int| #![trigger player_changed_msgs(ps, map)[k]] 0 <= k < player_changed_msgs(ps, map).len()
        && map.contains_key(ps[i].id.0) implies player_changed_msgs(ps, map)[k]->PlayerChanged_0 != ServerEntity(map[ps[i].id.0]) by {
        let j = choose|j: int| 0 <= j < ps.len() && player_wants_change(#[trigger] ps[j], map)
            && player_changed_msgs(ps, map)[k] == PlayerServerV::PlayerChanged(ServerEntity(map[ps[j].id.0]), ps[j].transform);
        if j != i {
            assert(ps[j].id != ps[i].id);
            assert(ps[j].id.0 != ps[i].id.0);
        }
    }
}

} // verus!

verus! {

/// When a client applies a relayed new entity, exactly one entity is added:
/// a mirror that carries the payload unchanged and the ignore marker, and
/// whose handle is paired with the server handle both ways.
pub proof fn lemma_added_mirror_paired(
    pre: StereoKitBevyClient,
    post: StereoKitBevyClient,
    r: Result<Option<ModelMsgClient>, ApplyError>,
    s: ServerEntity,
    d: ModelDataV,
)
    requires
        pre.wf(),
        pre.next_entity() < u64::MAX,
        applied(pre, post, r, MsgV::Server(ServerMsgV::ModelAdded(s, d))),
    ensures
        r is Ok,
        post.entities().len() == pre.entities().len() + 1,
        post.entities().last() == mirror(pre.next_entity(), d),
        post.entities().last().ignored,
        post.entities().last().data == d,
        post.map().contains_key(pre.next_entity()),
        post.map()[pre.next_entity()] == s.0,
        left_of(post.map(), s.0) == Some(pre.next_entity()),
{
    crate::entity_map::lemma_insert_bijection(pre.map(), pre.next_entity(), s.0);
}

} // verus!
