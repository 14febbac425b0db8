//! The bijection between a client's local entities and the server's.
use vstd::prelude::*;
use crate::entity::{ClientEntity, ServerEntity};

verus! {

#[verifier::external_type_specification]
#[verifier::external_body]
#[verifier::reject_recursive_types(L)]
#[verifier::reject_recursive_types(R)]
#[verifier::reject_recursive_types(LS)]
#[verifier::reject_recursive_types(RS)]
pub struct ExBiHashMap<L, R, LS, RS>(bimap::BiHashMap<L, R, LS, RS>);

/// The table that holds the pairs of an [`EntityMap`].
pub type PairTable = bimap::BiHashMap<u64, u64>;

/// The pairs that a bimap holds, as a map from left values to right values.
pub uninterp spec fn bimap_pairs(m: PairTable) -> Map<u64, u64>;

/// `m` after the pair `(l, r)` went in and every pair that held `l` or `r`
/// went out.
pub open spec fn pairs_after_insert(m: Map<u64, u64>, l: u64, r: u64) -> Map<u64, u64> {
    Map::new(
        |k: u64| k == l || (m.contains_key(k) && m[k] != r),
        |k: u64| if k == l { r } else { m[k] },
    )
}

/// Relies on bimap::BiHashMap::new: the new bimap holds no pair.
#[verifier::external_body]
fn bimap_new() -> (r: PairTable)
    ensures
        bimap_pairs(r) =~= Map::empty(),
{
    bimap::BiHashMap::new()
}

/// Relies on bimap::BiHashMap::insert: it removes the pair holding `l` and
/// the pair holding `r`, then adds `(l, r)`.
#[verifier::external_body]
fn bimap_insert(m: &mut PairTable, l: u64, r: u64)
    ensures
        bimap_pairs(*final(m)) == pairs_after_insert(bimap_pairs(*old(m)), l, r),
{
    m.insert(l, r);
}

/// Relies on bimap::BiHashMap::get_by_left: the right value paired with `l`.
#[verifier::external_body]
fn bimap_get_by_left(m: &PairTable, l: u64) -> (r: Option<u64>)
    ensures
        r == (if bimap_pairs(*m).contains_key(l) { Some(bimap_pairs(*m)[l]) } else { None::<u64> }),
{
    m.get_by_left(&l).copied()
}

/// Relies on bimap::BiHashMap::get_by_right: the left value paired with `r`.
#[verifier::external_body]
fn bimap_get_by_right(m: &PairTable, r: u64) -> (res: Option<u64>)
    ensures
        match res {
            Some(l) => bimap_pairs(*m).contains_key(l) && bimap_pairs(*m)[l] == r,
            None => forall|l: u64| #![trigger bimap_pairs(*m)[l]]
                !(bimap_pairs(*m).contains_key(l) && bimap_pairs(*m)[l] == r),
        },
{
    m.get_by_right(&r).copied()
}

/// A map is injective when no two keys share a value.
pub open spec fn injective(m: Map<u64, u64>) -> bool {
    forall|a: u64, b: u64|
        #![trigger m[a], m[b]]
        m.contains_key(a) && m.contains_key(b) && m[a] == m[b] ==> a == b
}

/// The key that `m` maps to `v`, if any.
pub open spec fn left_of(m: Map<u64, u64>, v: u64) -> Option<u64> {
    if exists|c: u64| m.contains_key(c) && m[c] == v {
        Some(choose|c: u64| m.contains_key(c) && m[c] == v)
    } else {
        None
    }
}

/// Inserting into a bijection keeps it a bijection: the new pair reads
/// back both ways, and every pair that stays reads back from its server
/// side to its client side.
pub proof fn lemma_insert_bijection(m: Map<u64, u64>, c: u64, s: u64)
    requires
        injective(m),
    ensures
        injective(pairs_after_insert(m, c, s)),
        pairs_after_insert(m, c, s).contains_key(c),
        pairs_after_insert(m, c, s)[c] == s,
        left_of(pairs_after_insert(m, c, s), s) == Some(c),
        forall|x: u64| #![trigger pairs_after_insert(m, c, s)[x]]
            pairs_after_insert(m, c, s).contains_key(x)
                ==> left_of(pairs_after_insert(m, c, s), pairs_after_insert(m, c, s)[x]) == Some(x),
{
    let n = pairs_after_insert(m, c, s);
    assert forall|a: u64, b: u64| n.contains_key(a) && n.contains_key(b) && n[a] == n[b] implies a == b by {
        if a != c && b != c {
            assert(m[a] == n[a] && m[b] == n[b]);
        }
    }
    lemma_left_of_injective(n);
}

/// In a bijection, the key found for a value is the one that maps to it.
pub proof fn lemma_left_of_injective(n: Map<u64, u64>)
    requires
        injective(n),
    ensures
        forall|x: u64| #![trigger n[x]] n.contains_key(x) ==> left_of(n, n[x]) == Some(x),
{
    assert forall|x: u64| #![trigger n[x]] n.contains_key(x) implies left_of(n, n[x]) == Some(x) by {
        let y = n[x];
        assert(n.contains_key(x) && n[x] == y);
        let d = choose|d: u64| n.contains_key(d) && n[d] == y;
        assert(n[d] == n[x]);
    }
}

/// The pairing of one client's entities with the server's: each client
/// entity is paired with at most one server entity and the other way round.
pub struct EntityMap {
    pairs: PairTable,
}

impl EntityMap {
    /// The pairs, from client entity id to server entity id.
    pub closed spec fn view(&self) -> Map<u64, u64> {
        bimap_pairs(self.pairs)
    }

    /// The map is a bijection between its keys and its values.
    pub open spec fn wf(&self) -> bool {
        injective(self@)
    }

    /// The server entity paired with `c`, if any.
    pub open spec fn server_of(&self, c: u64) -> Option<u64> {
        if self@.contains_key(c) { Some(self@[c]) } else { None }
    }

    /// The client entity paired with `s`, if any.
    pub open spec fn client_of(&self, s: u64) -> Option<u64> {
        left_of(self@, s)
    }

    pub fn new() -> (r: EntityMap)
        ensures
            r.wf(),
            r@ =~= Map::empty(),
    {
        EntityMap { pairs: bimap_new() }
    }

    /// Pairs `c` with `s`, dropping any pairing either of them had.
    pub fn insert(&mut self, c: ClientEntity, s: ServerEntity)
        requires
            old(self).wf(),
        ensures
            final(self).wf(),
            final(self)@ == pairs_after_insert(old(self)@, c.0, s.0),
    {
        bimap_insert(&mut self.pairs, c.0, s.0);
        proof {
            let m = old(self)@;
            let n = self@;
            assert forall|a: u64, b: u64|
                n.contains_key(a) && n.contains_key(b) && n[a] == n[b] implies a == b by {
                if a != c.0 && b != c.0 {
                    assert(m[a] == n[a] && m[b] == n[b]);
                }
            }
        }
    }

    /// The server entity paired with `c`.
    pub fn get_by_left(&self, c: ClientEntity) -> (r: Option<ServerEntity>)
        ensures
            r == (match self.server_of(c.0) {
                Some(s) => Some(ServerEntity(s)),
                None => None::<ServerEntity>,
            }),
    {
        match bimap_get_by_left(&self.pairs, c.0) {
            Some(s) => Some(ServerEntity(s)),
            None => None,
        }
    }

    /// The client entity paired with `s`.
    pub fn get_by_right(&self, s: ServerEntity) -> (r: Option<ClientEntity>)
        requires
            self.wf(),
        ensures
            r == (match self.client_of(s.0) {
                Some(c) => Some(ClientEntity(c)),
                None => None::<ClientEntity>,
            }),
    {
        match bimap_get_by_right(&self.pairs, s.0) {
            Some(c) => {
                proof { lemma_left_of_injective(self@); }
                assert(self@[c] == s.0);
                Some(ClientEntity(c))
            },
            None => {
                assert(!exists|c: u64| self@.contains_key(c) && self@[c] == s.0);
                None
            },
        }
    }
}

} // verus!
