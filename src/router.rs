//! The server's side: it gives each new entity its server handle and relays
//! what one client reports to the others.
use vstd::prelude::*;
use crate::entity::{ClientId, ServerEntity};
use crate::message::{ModelMsg, ModelMsgClient, ModelMsgServer, MsgV, ClientMsgV, ServerMsgV, ModelDataV, items_view};
use crate::wire::{decode, enc_msg, valid_msg};

verus! {

/// A message to send, and to whom.
#[derive(Clone, Debug)]
pub struct Outgoing {
    pub to: ClientId,
    pub msg: ModelMsgServer,
}

impl View for Outgoing {
    type V = (ClientId, ServerMsgV);

    open spec fn view(&self) -> (ClientId, ServerMsgV) {
        (self.to, self.msg@)
    }
}

pub open spec fn outgoing_view(v: Seq<Outgoing>) -> Seq<(ClientId, ServerMsgV)> {
    v.map_values(|o: Outgoing| o@)
}

/// Why the server dropped a message.
#[derive(Clone, Copy, Debug, PartialEq, Eq, Structural)]
pub enum RouteError {
    /// The bytes are the encoding of no message.
    Malformed,
    /// The message is one that only the server sends.
    NotFromClient,
    /// Every server handle has been given out.
    EntitiesExhausted,
}

/// The clients of `s` other than `c`, in order.
pub open spec fn others(s: Seq<ClientId>, c: ClientId) -> Seq<ClientId>
    decreases s.len(),
{
    if s.len() == 0 {
        Seq::empty()
    } else if s.last() == c {
        others(s.drop_last(), c)
    } else {
        others(s.drop_last(), c).push(s.last())
    }
}

/// `m` addressed to each client of `s`.
pub open spec fn fan_out(s: Seq<ClientId>, m: ServerMsgV) -> Seq<(ClientId, ServerMsgV)> {
    s.map_values(|c: ClientId| (c, m))
}

/// What the server sends for a message `m` from `sender`, given the clients
/// connected and the handle a new entity would get.
pub open spec fn route(
    clients: Seq<ClientId>,
    sender: ClientId,
    fresh: u64,
    m: ClientMsgV,
) -> Seq<(ClientId, ServerMsgV)> {
    match m {
        ClientMsgV::ModelAdded(c, d) => seq![(sender, ServerMsgV::EntityMap(ServerEntity(fresh), c))]
            + fan_out(others(clients, sender), ServerMsgV::ModelAdded(ServerEntity(fresh), d)),
        ClientMsgV::ModelChanged(s, d) => fan_out(
            others(clients, sender),
            ServerMsgV::ModelChanged(s, d),
        ),
        ClientMsgV::AllModelData(req, items) => items.map_values(
            |p: (ServerEntity, ModelDataV)| (req, ServerMsgV::ModelAdded(p.0, p.1)),
        ),
    }
}

/// The relay: the clients connected, in the order they came, and the next
/// server handle to give out.
pub struct StereoKitBevyServer {
    clients: Vec<ClientId>,
    next_entity: u64,
}

impl StereoKitBevyServer {
    pub closed spec fn clients(&self) -> Seq<ClientId> {
        self.clients@
    }

    pub closed spec fn next_entity(&self) -> u64 {
        self.next_entity
    }

    /// No client is registered twice.
    pub open spec fn wf(&self) -> bool {
        self.clients().no_duplicates()
    }

    pub fn new() -> (r: StereoKitBevyServer)
        ensures
            r.wf(),
            r.clients() == Seq::<ClientId>::empty(),
            r.next_entity() == 0,
    {
        StereoKitBevyServer { clients: Vec::new(), next_entity: 0 }
    }

    pub fn is_connected(&self, id: ClientId) -> (r: bool)
        ensures
            r == self.clients().contains(id),
    {
        let mut i: usize = 0;
        while i < self.clients.len()
            invariant
                i <= self.clients@.len(),
                forall|k: int| 0 <= k < i ==> self.clients@[k] != id,
            decreases self.clients.len() - i,
        {
            if self.clients[i] == id {
                return true;
            }
            i = i + 1;
        }
        false
    }

    /// The clients other than `c`.
    fn others_of(&self, c: ClientId) -> (r: Vec<ClientId>)
        ensures
            r@ == others(self.clients(), c),
    {
        let mut r: Vec<ClientId> = Vec::new();
        let mut i: usize = 0;
        while i < self.clients.len()
            invariant
                i <= self.clients@.len(),
                r@ == others(self.clients@.subrange(0, i as int), c),
            decreases self.clients.len() - i,
        {
            let x = self.clients[i];
            proof {
                assert(self.clients@.subrange(0, i + 1).drop_last() =~= self.clients@.subrange(0, i as int));
            }
            if x != c {
                r.push(x);
            }
            i = i + 1;
        }
        assert(self.clients@.subrange(0, i as int) =~= self.clients@);
        r
    }

    /// Registers a newly connected client and asks every other client to
    /// report its entities for it.
    pub fn connect(&mut self, id: ClientId) -> (r: Vec<Outgoing>)
        requires
            old(self).wf(),
        ensures
            final(self).wf(),
            final(self).next_entity() == old(self).next_entity(),
            final(self).clients() == (if old(self).clients().contains(id) {
                old(self).clients()
            } else {
                old(self).clients().push(id)
            }),
            outgoing_view(r@) == fan_out(others(old(self).clients(), id), ServerMsgV::GetAllModelData(id)),
    {
        let targets = self.others_of(id);
        if !self.is_connected(id) {
            self.clients.push(id);
        }
        let mut r: Vec<Outgoing> = Vec::new();
        let mut i: usize = 0;
        while i < targets.len()
            invariant
                i <= targets@.len(),
                outgoing_view(r@) == fan_out(targets@.subrange(0, i as int), ServerMsgV::GetAllModelData(id)),
            decreases targets.len() - i,
        {
            let ghost prev = r@;
            let o = Outgoing { to: targets[i], msg: ModelMsgServer::GetAllModelData(id) };
            r.push(o);
            proof {
                let m = ServerMsgV::GetAllModelData(id);
                assert(outgoing_view(r@) =~= outgoing_view(prev).push(o@));
                assert(targets@.subrange(0, i + 1) =~= targets@.subrange(0, i as int).push(targets@[i as int]));
                assert(fan_out(targets@.subrange(0, i + 1), m) =~= fan_out(targets@.subrange(0, i as int), m).push((targets@[i as int], m)));
            }
            i = i + 1;
        }
        assert(targets@.subrange(0, i as int) =~= targets@);
        r
    }

    /// Removes a client that left.
    pub fn disconnect(&mut self, id: ClientId)
        requires
            old(self).wf(),
        ensures
            final(self).wf(),
            final(self).next_entity() == old(self).next_entity(),
            final(self).clients() == others(old(self).clients(), id),
    {
        let kept = self.others_of(id);
        proof { lemma_others_sub(self.clients@, id); }
        self.clients = kept;
    }
}

/// What the server answers to a message `m` from `sender`.
pub open spec fn step_result(
    clients: Seq<ClientId>,
    next: u64,
    sender: ClientId,
    m: MsgV,
) -> Result<Seq<(ClientId, ServerMsgV)>, RouteError> {
    match m {
        MsgV::Server(_) => Err(RouteError::NotFromClient),
        MsgV::Client(c) => if c is ModelAdded && next == u64::MAX {
            Err(RouteError::EntitiesExhausted)
        } else {
            Ok(route(clients, sender, next, c))
        },
    }
}

/// The next server handle after the server handled `m`.
pub open spec fn step_next(next: u64, m: MsgV) -> u64 {
    match m {
        MsgV::Client(ClientMsgV::ModelAdded(_, _)) => if next == u64::MAX { next } else { (next + 1) as u64 },
        _ => next,
    }
}

pub open spec fn result_view(r: Result<Vec<Outgoing>, RouteError>) -> Result<Seq<(ClientId, ServerMsgV)>, RouteError> {
    match r {
        Ok(v) => Ok(outgoing_view(v@)),
        Err(e) => Err(e),
    }
}

impl StereoKitBevyServer {
    /// Handles a message from `sender`. A new entity gets the next server
    /// handle: the sender learns it, and every other client gets the entity.
    /// A change goes to every other client. A report goes, entity by entity,
    /// to the client it was made for.
    pub fn server(&mut self, msg: ModelMsg, sender: ClientId) -> (r: Result<Vec<Outgoing>, RouteError>)
        requires
            old(self).wf(),
        ensures
            final(self).wf(),
            final(self).clients() == old(self).clients(),
            final(self).next_entity() == step_next(old(self).next_entity(), msg@),
            result_view(r) == step_result(old(self).clients(), old(self).next_entity(), sender, msg@),
    {
        let m = match msg {
            ModelMsg::Client(m) => m,
            ModelMsg::Server(_) => {
                return Err(RouteError::NotFromClient);
            },
        };
        let ghost mv = m@;
        match m {
            ModelMsgClient::ModelAdded(client_entity, model_data) => {
                if self.next_entity == u64::MAX {
                    return Err(RouteError::EntitiesExhausted);
                }
                let server_entity = ServerEntity(self.next_entity);
                self.next_entity = self.next_entity + 1;
                let targets = self.others_of(sender);
                let mut r: Vec<Outgoing> = Vec::new();
                r.push(Outgoing { to: sender, msg: ModelMsgServer::EntityMap(server_entity, client_entity) });
                let ghost added = ServerMsgV::ModelAdded(server_entity, model_data@);
                let mut i: usize = 0;
                assert(outgoing_view(r@) =~= seq![(sender, ServerMsgV::EntityMap(server_entity, client_entity))]
                    + fan_out(targets@.subrange(0, 0), added));
                while i < targets.len()
                    invariant
                        i <= targets@.len(),
                        outgoing_view(r@) == seq![(sender, ServerMsgV::EntityMap(server_entity, client_entity))]
                            + fan_out(targets@.subrange(0, i as int), added),
                        added == ServerMsgV::ModelAdded(server_entity, model_data@),
                    decreases targets.len() - i,
                {
                    let ghost prev = r@;
                    let o = Outgoing { to: targets[i], msg: ModelMsgServer::ModelAdded(server_entity, model_data.duplicate()) };
                    r.push(o);
                    proof {
                        assert(outgoing_view(r@) =~= outgoing_view(prev).push(o@));
                        assert(targets@.subrange(0, i + 1) =~= targets@.subrange(0, i as int).push(targets@[i as int]));
                        assert(fan_out(targets@.subrange(0, i + 1), added) =~= fan_out(targets@.subrange(0, i as int), added).push((targets@[i as int], added)));
                    }
                    i = i + 1;
                }
                assert(targets@.subrange(0, i as int) =~= targets@);
                Ok(r)
            },
            ModelMsgClient::ModelChanged(server_entity, delta) => {
                let targets = self.others_of(sender);
                let mut r: Vec<Outgoing> = Vec::new();
                let ghost changed = ServerMsgV::ModelChanged(server_entity, delta);
                let mut i: usize = 0;
                assert(outgoing_view(r@) =~= fan_out(targets@.subrange(0, 0), changed));
                while i < targets.len()
                    invariant
                        i <= targets@.len(),
                        outgoing_view(r@) == fan_out(targets@.subrange(0, i as int), changed),
                        changed == ServerMsgV::ModelChanged(server_entity, delta),
                    decreases targets.len() - i,
                {
                    let ghost prev = r@;
                    let o = Outgoing { to: targets[i], msg: ModelMsgServer::ModelChanged(server_entity, delta) };
                    r.push(o);
                    proof {
                        assert(outgoing_view(r@) =~= outgoing_view(prev).push(o@));
                        assert(targets@.subrange(0, i + 1) =~= targets@.subrange(0, i as int).push(targets@[i as int]));
                        assert(fan_out(targets@.subrange(0, i + 1), changed) =~= fan_out(targets@.subrange(0, i as int), changed).push((targets@[i as int], changed)));
                    }
                    i = i + 1;
                }
                assert(targets@.subrange(0, i as int) =~= targets@);
                Ok(r)
            },
            ModelMsgClient::AllModelData(requester, all_model_data) => {
                let ghost iv = items_view(all_model_data@);
                let mut r: Vec<Outgoing> = Vec::new();
                let mut i: usize = 0;
                assert(outgoing_view(r@) =~= iv.subrange(0, 0).map_values(
                    |p: (ServerEntity, ModelDataV)| (requester, ServerMsgV::ModelAdded(p.0, p.1))));
                while i < all_model_data.len()
                    invariant
                        i <= all_model_data@.len(),
                        iv == items_view(all_model_data@),
                        outgoing_view(r@) == iv.subrange(0, i as int).map_values(
                            |p: (ServerEntity, ModelDataV)| (requester, ServerMsgV::ModelAdded(p.0, p.1))),
                    decreases all_model_data.len() - i,
                {
                    let ghost prev = r@;
                    let (entity, model_data) = &all_model_data[i];
                    let o = Outgoing { to: requester, msg: ModelMsgServer::ModelAdded(*entity, model_data.duplicate()) };
                    r.push(o);
                    proof {
                        assert(outgoing_view(r@) =~= outgoing_view(prev).push(o@));
                        assert(iv.subrange(0, i + 1) =~= iv.subrange(0, i as int).push(iv[i as int]));
                        assert(iv.subrange(0, i + 1).map_values(
                            |p: (ServerEntity, ModelDataV)| (requester, ServerMsgV::ModelAdded(p.0, p.1)))
                            =~= iv.subrange(0, i as int).map_values(
                            |p: (ServerEntity, ModelDataV)| (requester, ServerMsgV::ModelAdded(p.0, p.1))).push(o@));
                    }
                    i = i + 1;
                }
                assert(iv.subrange(0, i as int) =~= iv);
                Ok(r)
            },
        }
    }

    /// Decodes `bytes` from `sender` and handles the message; bytes that
    /// encode no message are dropped with `Malformed`.
    pub fn _server(&mut self, bytes: &[u8], sender: ClientId) -> (r: Result<Vec<Outgoing>, RouteError>)
        requires
            old(self).wf(),
        ensures
            final(self).wf(),
            final(self).clients() == old(self).clients(),
            (forall|w: MsgV| valid_msg(w) ==> bytes@ != #[trigger] enc_msg(w)) ==> (r == Err::<Vec<Outgoing>, RouteError>(RouteError::Malformed)
                && final(self).next_entity() == old(self).next_entity()),
            forall|w: MsgV| valid_msg(w) && bytes@ == #[trigger] enc_msg(w) ==> (
                final(self).next_entity() == step_next(old(self).next_entity(), w)
                && result_view(r) == step_result(old(self).clients(), old(self).next_entity(), sender, w)),
    {
        match decode(bytes) {
            Some(m) => self.server(m, sender),
            None => Err(RouteError::Malformed),
        }
    }
}

/// A message from one client reaches every connected client but that one,
/// once each: with `n` clients connected, `n - 1` of them.
pub proof fn lemma_fan_out_exclusion(clients: Seq<ClientId>, sender: ClientId, m: ServerMsgV)
    requires
        clients.no_duplicates(),
        clients.contains(sender),
    ensures
        fan_out(others(clients, sender), m).len() == clients.len() - 1,
        forall|x: ClientId| #![trigger others(clients, sender).contains(x)]
            others(clients, sender).contains(x) <==> (clients.contains(x) && x != sender),
        others(clients, sender).no_duplicates(),
{
    lemma_others_sub(clients, sender);
    lemma_others_len(clients, sender);
}

proof fn lemma_others_len(s: Seq<ClientId>, c: ClientId)
    requires
        s.no_duplicates(),
    ensures
        others(s, c).len() == (if s.contains(c) { s.len() - 1 } else { s.len() as int }),
    decreases s.len(),
{
    if s.len() > 0 {
        let h = s.drop_last();
        assert(h.no_duplicates()) by {
            assert forall|i: int, j: int| 0 <= i < h.len() && 0 <= j < h.len() && i != j implies h[i] != h[j] by {
                assert(h[i] == s[i] && h[j] == s[j]);
            }
        }
        lemma_others_len(h, c);
        if s.contains(c) {
            let k = choose|k: int| 0 <= k < s.len() && s[k] == c;
            if s.last() == c {
                assert(!h.contains(c)) by {
                    if h.contains(c) {
                        let j = choose|j: int| 0 <= j < h.len() && h[j] == c;
                        assert(s[j] == s[s.len() - 1]);
                    }
                }
            } else {
                assert(h[k] == c);
            }
        } else {
            assert(!h.contains(c)) by {
                if h.contains(c) {
                    let j = choose|j: int| 0 <= j < h.len() && h[j] == c;
                    assert(s[j] == c);
                }
            }
        }
    }
}

/// Each client that stays is one of the clients, the clients that stay are
/// all distinct when the clients are, and they are every client but `c`.
pub proof fn lemma_others_sub(s: Seq<ClientId>, c: ClientId)
    ensures
        forall|x: ClientId| others(s, c).contains(x) <==> (s.contains(x) && x != c),
        s.no_duplicates() ==> others(s, c).no_duplicates(),
    decreases s.len(),
{
    if s.len() > 0 {
        let h = s.drop_last();
        lemma_others_sub(h, c);
        assert forall|x: ClientId| s.contains(x) <==> (h.contains(x) || x == s.last()) by {
            if s.contains(x) {
                let k = choose|k: int| 0 <= k < s.len() && s[k] == x;
                if k < h.len() {
                    assert(h[k] == x);
                }
            }
            if h.contains(x) {
                let k = choose|k: int| 0 <= k < h.len() && h[k] == x;
                assert(s[k] == x);
            }
            if x == s.last() {
                assert(s[s.len() - 1] == x);
            }
        }
        if s.no_duplicates() {
            assert(h.no_duplicates()) by {
                assert forall|i: int, j: int| 0 <= i < h.len() && 0 <= j < h.len() && i != j implies h[i] != h[j] by {
                    assert(h[i] == s[i] && h[j] == s[j]);
                }
            }
            assert(!h.contains(s.last())) by {
                if h.contains(s.last()) {
                    let k = choose|k: int| 0 <= k < h.len() && h[k] == s.last();
                    assert(s[k] == s[s.len() - 1]);
                }
            }
        }
        let o = others(h, c);
        if s.last() == c {
            assert forall|x: ClientId| others(s, c).contains(x) <==> (s.contains(x) && x != c) by {
                assert(others(s, c) == o);
            }
        }
        if s.last() != c {
            assert forall|x: ClientId| o.push(s.last()).contains(x) <==> (o.contains(x) || x == s.last()) by {
                if o.push(s.last()).contains(x) {
                    let k = choose|k: int| 0 <= k < o.len() + 1 && o.push(s.last())[k] == x;
                    if k < o.len() {
                        assert(o[k] == x);
                    }
                }
                if o.contains(x) {
                    let k = choose|k: int| 0 <= k < o.len() && o[k] == x;
                    assert(o.push(s.last())[k] == x);
                }
                if x == s.last() {
                    assert(o.push(s.last())[o.len() as int] == x);
                }
            }
            assert forall|x: ClientId| others(s, c).contains(x) <==> (s.contains(x) && x != c) by {
                assert(others(s, c) == o.push(s.last()));
            }
            if s.no_duplicates() {
                let p = o.push(s.last());
                assert forall|i: int, j: int| 0 <= i < p.len() && 0 <= j < p.len() && i != j implies p[i] != p[j] by {
                    if i < o.len() && j < o.len() {
                        assert(p[i] == o[i] && p[j] == o[j]);
                    } else if i < o.len() {
                        assert(o.contains(p[i]));
                    } else if j < o.len() {
                        assert(o.contains(p[j]));
                    }
                }
            }
        }
    }
}

} // verus!
