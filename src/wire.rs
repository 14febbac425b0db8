//! Messages as bytes: their encoding as spec functions, the facts that make
//! it decodable, and the encoder and decoder.
use vstd::prelude::*;
use crate::codec::{
    at, le32, le64, le_words, lemma_at_concat, lemma_at_same, lemma_le32_injective,
    lemma_le64_injective, lemma_le_words_injective, lemma_le_words_len, read_bytes, read_u32, read_u64,
    read_words, write_u32, write_u64, write_words,
};
use crate::entity::{ClientEntity, ServerEntity};
use crate::message::{
    ClientMsgV, ModelData, ModelData2, ModelDataV, ModelInfo, ModelInfoV, ModelMsg, ModelMsgClient,
    ModelMsgServer, MsgV, ServerMsgV, Vec3, Transform, Quat, Color128, RenderLayer, items_view,
    PlayerMsgClient, PlayerMsgServer, PlayerServerV,
};

verus! {

pub open spec fn vec3_words(v: Vec3) -> Seq<u32> {
    seq![v.x, v.y, v.z]
}

/// The fifteen words of a changeable payload: translation, rotation, scale,
/// colour, render layer.
pub open spec fn delta_words(d: ModelData2) -> Seq<u32> {
    seq![
        d.transform.translation.x, d.transform.translation.y, d.transform.translation.z,
        d.transform.rotation.x, d.transform.rotation.y, d.transform.rotation.z,
        d.transform.rotation.w,
        d.transform.scale.x, d.transform.scale.y, d.transform.scale.z,
        d.color128.r, d.color128.g, d.color128.b, d.color128.a,
        d.render_layer.0,
    ]
}

pub open spec fn enc_info(i: ModelInfoV) -> Seq<u8> {
    match i {
        ModelInfoV::Cube(v) => le32(0) + le_words(vec3_words(v)),
        ModelInfoV::Asset(bs) => le32(1) + le64(bs.len() as u64) + bs,
    }
}

pub open spec fn enc_delta(d: ModelData2) -> Seq<u8> {
    le_words(delta_words(d))
}

pub open spec fn enc_data(d: ModelDataV) -> Seq<u8> {
    enc_info(d.model_info) + enc_delta(d.delta())
}

pub open spec fn enc_item(p: (ServerEntity, ModelDataV)) -> Seq<u8> {
    le64(p.0.0) + enc_data(p.1)
}

pub open spec fn enc_items(s: Seq<(ServerEntity, ModelDataV)>) -> Seq<u8>
    decreases s.len(),
{
    if s.len() == 0 {
        Seq::empty()
    } else {
        enc_items(s.drop_last()) + enc_item(s.last())
    }
}

pub open spec fn enc_client(m: ClientMsgV) -> Seq<u8> {
    match m {
        ClientMsgV::ModelAdded(c, d) => le32(0) + le64(c.0) + enc_data(d),
        ClientMsgV::ModelChanged(s, d) => le32(1) + le64(s.0) + enc_delta(d),
        ClientMsgV::AllModelData(id, items) => le32(2) + le64(id) + le64(items.len() as u64)
            + enc_items(items),
    }
}

pub open spec fn enc_server(m: ServerMsgV) -> Seq<u8> {
    match m {
        ServerMsgV::ModelAdded(s, d) => le32(0) + le64(s.0) + enc_data(d),
        ServerMsgV::ModelChanged(s, d) => le32(1) + le64(s.0) + enc_delta(d),
        ServerMsgV::EntityMap(s, c) => le32(2) + le64(s.0) + le64(c.0),
        ServerMsgV::GetAllModelData(id) => le32(3) + le64(id),
    }
}

/// The bytes of a message.
pub open spec fn enc_msg(m: MsgV) -> Seq<u8> {
    match m {
        MsgV::Client(c) => le32(0) + enc_client(c),
        MsgV::Server(s) => le32(1) + enc_server(s),
    }
}

/// Every length in the value fits the eight bytes the wire gives it.
pub open spec fn valid_info(i: ModelInfoV) -> bool {
    match i {
        ModelInfoV::Asset(bs) => bs.len() <= u64::MAX,
        _ => true,
    }
}

pub open spec fn valid_items(s: Seq<(ServerEntity, ModelDataV)>) -> bool {
    s.len() <= u64::MAX && forall|i: int| 0 <= i < s.len() ==> valid_info(#[trigger] s[i].1.model_info)
}

pub open spec fn valid_client(m: ClientMsgV) -> bool {
    match m {
        ClientMsgV::ModelAdded(_, d) => valid_info(d.model_info),
        ClientMsgV::AllModelData(_, items) => valid_items(items),
        _ => true,
    }
}

pub open spec fn valid_server(m: ServerMsgV) -> bool {
    match m {
        ServerMsgV::ModelAdded(_, d) => valid_info(d.model_info),
        _ => true,
    }
}

pub open spec fn valid_msg(m: MsgV) -> bool {
    match m {
        MsgV::Client(c) => valid_client(c),
        MsgV::Server(s) => valid_server(s),
    }
}

proof fn lemma_tag_unique(b: Seq<u8>, pos: int, t1: u32, r1: Seq<u8>, t2: u32, r2: Seq<u8>)
    requires
        at(b, pos, le32(t1) + r1),
        at(b, pos, le32(t2) + r2),
    ensures
        t1 == t2,
        at(b, pos + 4, r1),
        at(b, pos + 4, r2),
{
    lemma_at_concat(b, pos, le32(t1), r1);
    lemma_at_concat(b, pos, le32(t2), r2);
    lemma_at_same(b, pos, le32(t1), le32(t2));
    lemma_le32_injective(t1, t2);
}

proof fn lemma_u64_unique(b: Seq<u8>, pos: int, x1: u64, r1: Seq<u8>, x2: u64, r2: Seq<u8>)
    requires
        at(b, pos, le64(x1) + r1),
        at(b, pos, le64(x2) + r2),
    ensures
        x1 == x2,
        at(b, pos + 8, r1),
        at(b, pos + 8, r2),
{
    lemma_at_concat(b, pos, le64(x1), r1);
    lemma_at_concat(b, pos, le64(x2), r2);
    lemma_at_same(b, pos, le64(x1), le64(x2));
    lemma_le64_injective(x1, x2);
}

pub proof fn lemma_delta_unique(b: Seq<u8>, pos: int, d1: ModelData2, d2: ModelData2)
    requires
        at(b, pos, enc_delta(d1)),
        at(b, pos, enc_delta(d2)),
    ensures
        d1 == d2,
{
    lemma_le_words_len(delta_words(d1));
    lemma_le_words_len(delta_words(d2));
    lemma_at_same(b, pos, enc_delta(d1), enc_delta(d2));
    lemma_le_words_injective(delta_words(d1), delta_words(d2));
    let (w1, w2) = (delta_words(d1), delta_words(d2));
    assert(w1[0] == w2[0] && w1[1] == w2[1] && w1[2] == w2[2] && w1[3] == w2[3]);
    assert(w1[4] == w2[4] && w1[5] == w2[5] && w1[6] == w2[6] && w1[7] == w2[7]);
    assert(w1[8] == w2[8] && w1[9] == w2[9] && w1[10] == w2[10] && w1[11] == w2[11]);
    assert(w1[12] == w2[12] && w1[13] == w2[13] && w1[14] == w2[14]);
}

pub proof fn lemma_info_unique(b: Seq<u8>, pos: int, i1: ModelInfoV, i2: ModelInfoV)
    requires
        valid_info(i1),
        valid_info(i2),
        at(b, pos, enc_info(i1)),
        at(b, pos, enc_info(i2)),
    ensures
        i1 == i2,
{
    match (i1, i2) {
        (ModelInfoV::Cube(v1), ModelInfoV::Cube(v2)) => {
            lemma_tag_unique(b, pos, 0, le_words(vec3_words(v1)), 0, le_words(vec3_words(v2)));
            lemma_le_words_len(vec3_words(v1));
            lemma_le_words_len(vec3_words(v2));
            lemma_at_same(b, pos + 4, le_words(vec3_words(v1)), le_words(vec3_words(v2)));
            lemma_le_words_injective(vec3_words(v1), vec3_words(v2));
            assert(vec3_words(v1)[0] == vec3_words(v2)[0]);
            assert(vec3_words(v1)[1] == vec3_words(v2)[1]);
            assert(vec3_words(v1)[2] == vec3_words(v2)[2]);
        },
        (ModelInfoV::Asset(s1), ModelInfoV::Asset(s2)) => {
            assert(enc_info(i1) == le32(1) + (le64(s1.len() as u64) + s1));
            assert(enc_info(i2) == le32(1) + (le64(s2.len() as u64) + s2));
            lemma_tag_unique(b, pos, 1, le64(s1.len() as u64) + s1, 1, le64(s2.len() as u64) + s2);
            lemma_u64_unique(b, pos + 4, s1.len() as u64, s1, s2.len() as u64, s2);
            lemma_at_same(b, pos + 12, s1, s2);
        },
        (ModelInfoV::Cube(v1), ModelInfoV::Asset(s2)) => {
            assert(enc_info(i2) == le32(1) + (le64(s2.len() as u64) + s2));
            lemma_tag_unique(b, pos, 0, le_words(vec3_words(v1)), 1, le64(s2.len() as u64) + s2);
        },
        (ModelInfoV::Asset(s1), ModelInfoV::Cube(v2)) => {
            assert(enc_info(i1) == le32(1) + (le64(s1.len() as u64) + s1));
            lemma_tag_unique(b, pos, 1, le64(s1.len() as u64) + s1, 0, le_words(vec3_words(v2)));
        },
    }
}

pub proof fn lemma_data_unique(b: Seq<u8>, pos: int, d1: ModelDataV, d2: ModelDataV)
    requires
        valid_info(d1.model_info),
        valid_info(d2.model_info),
        at(b, pos, enc_data(d1)),
        at(b, pos, enc_data(d2)),
    ensures
        d1 == d2,
{
    lemma_at_concat(b, pos, enc_info(d1.model_info), enc_delta(d1.delta()));
    lemma_at_concat(b, pos, enc_info(d2.model_info), enc_delta(d2.delta()));
    lemma_info_unique(b, pos, d1.model_info, d2.model_info);
    lemma_delta_unique(b, pos + enc_info(d1.model_info).len(), d1.delta(), d2.delta());
}

pub proof fn lemma_item_unique(
    b: Seq<u8>,
    pos: int,
    item_a: (ServerEntity, ModelDataV),
    item_b: (ServerEntity, ModelDataV),
)
    requires
        valid_info(item_a.1.model_info),
        valid_info(item_b.1.model_info),
        at(b, pos, enc_item(item_a)),
        at(b, pos, enc_item(item_b)),
    ensures
        item_a == item_b,
{
    lemma_u64_unique(b, pos, item_a.0.0, enc_data(item_a.1), item_b.0.0, enc_data(item_b.1));
    lemma_data_unique(b, pos + 8, item_a.1, item_b.1);
}

pub proof fn lemma_items_unique(
    b: Seq<u8>,
    pos: int,
    s1: Seq<(ServerEntity, ModelDataV)>,
    s2: Seq<(ServerEntity, ModelDataV)>,
)
    requires
        valid_items(s1),
        valid_items(s2),
        s1.len() == s2.len(),
        at(b, pos, enc_items(s1)),
        at(b, pos, enc_items(s2)),
    ensures
        s1 == s2,
    decreases s1.len(),
{
    if s1.len() > 0 {
        let (h1, h2) = (s1.drop_last(), s2.drop_last());
        lemma_at_concat(b, pos, enc_items(h1), enc_item(s1.last()));
        lemma_at_concat(b, pos, enc_items(h2), enc_item(s2.last()));
        assert(valid_items(h1)) by {
            assert forall|i: int| 0 <= i < h1.len() implies valid_info(#[trigger] h1[i].1.model_info) by {
                assert(h1[i] == s1[i]);
            }
        }
        assert(valid_items(h2)) by {
            assert forall|i: int| 0 <= i < h2.len() implies valid_info(#[trigger] h2[i].1.model_info) by {
                assert(h2[i] == s2[i]);
            }
        }
        lemma_items_unique(b, pos, h1, h2);
        assert(valid_info(s1[s1.len() - 1].1.model_info));
        assert(valid_info(s2[s2.len() - 1].1.model_info));
        lemma_item_unique(b, pos + enc_items(h1).len(), s1.last(), s2.last());
        assert(s1 =~= h1.push(s1.last()));
        assert(s2 =~= h2.push(s2.last()));
    }
}

pub proof fn lemma_client_unique(b: Seq<u8>, pos: int, m1: ClientMsgV, m2: ClientMsgV)
    requires
        valid_client(m1),
        valid_client(m2),
        at(b, pos, enc_client(m1)),
        at(b, pos, enc_client(m2)),
    ensures
        m1 == m2,
{
    lemma_client_split(m1);
    lemma_client_split(m2);
    let (t1, r1) = client_split(m1);
    let (t2, r2) = client_split(m2);
    lemma_tag_unique(b, pos, t1, r1, t2, r2);
    match (m1, m2) {
        (ClientMsgV::ModelAdded(c1, d1), ClientMsgV::ModelAdded(c2, d2)) => {
            lemma_u64_unique(b, pos + 4, c1.0, enc_data(d1), c2.0, enc_data(d2));
            lemma_data_unique(b, pos + 12, d1, d2);
        },
        (ClientMsgV::ModelChanged(s1, d1), ClientMsgV::ModelChanged(s2, d2)) => {
            lemma_u64_unique(b, pos + 4, s1.0, enc_delta(d1), s2.0, enc_delta(d2));
            lemma_delta_unique(b, pos + 12, d1, d2);
        },
        (ClientMsgV::AllModelData(id1, v1), ClientMsgV::AllModelData(id2, v2)) => {
            lemma_u64_unique(b, pos + 4, id1, le64(v1.len() as u64) + enc_items(v1), id2, le64(v2.len() as u64) + enc_items(v2));
            lemma_u64_unique(b, pos + 12, v1.len() as u64, enc_items(v1), v2.len() as u64, enc_items(v2));
            lemma_items_unique(b, pos + 20, v1, v2);
        },
        _ => {},
    }
}

/// A client message as its tag and the bytes after it.
spec fn client_split(m: ClientMsgV) -> (u32, Seq<u8>) {
    match m {
        ClientMsgV::ModelAdded(c, d) => (0, le64(c.0) + enc_data(d)),
        ClientMsgV::ModelChanged(s, d) => (1, le64(s.0) + enc_delta(d)),
        ClientMsgV::AllModelData(id, items) => (2, le64(id) + (le64(items.len() as u64) + enc_items(items))),
    }
}

/// A server message as its tag and the bytes after it.
spec fn server_split(m: ServerMsgV) -> (u32, Seq<u8>) {
    match m {
        ServerMsgV::ModelAdded(s, d) => (0, le64(s.0) + enc_data(d)),
        ServerMsgV::ModelChanged(s, d) => (1, le64(s.0) + enc_delta(d)),
        ServerMsgV::EntityMap(s, c) => (2, le64(s.0) + le64(c.0)),
        ServerMsgV::GetAllModelData(id) => (3, le64(id)),
    }
}

proof fn lemma_client_split(m: ClientMsgV)
    ensures
        enc_client(m) == le32(client_split(m).0) + client_split(m).1,
{
    match m {
        ClientMsgV::ModelAdded(c, d) => {
            assert(enc_client(m) =~= le32(0) + (le64(c.0) + enc_data(d)));
        },
        ClientMsgV::ModelChanged(s, d) => {
            assert(enc_client(m) =~= le32(1) + (le64(s.0) + enc_delta(d)));
        },
        ClientMsgV::AllModelData(id, items) => {
            assert(enc_client(m) =~= le32(2) + (le64(id) + (le64(items.len() as u64) + enc_items(items))));
        },
    }
}

proof fn lemma_server_split(m: ServerMsgV)
    ensures
        enc_server(m) == le32(server_split(m).0) + server_split(m).1,
{
    match m {
        ServerMsgV::ModelAdded(s, d) => {
            assert(enc_server(m) =~= le32(0) + (le64(s.0) + enc_data(d)));
        },
        ServerMsgV::ModelChanged(s, d) => {
            assert(enc_server(m) =~= le32(1) + (le64(s.0) + enc_delta(d)));
        },
        ServerMsgV::EntityMap(s, c) => {
            assert(enc_server(m) =~= le32(2) + (le64(s.0) + le64(c.0)));
        },
        ServerMsgV::GetAllModelData(id) => {},
    }
}

proof fn lemma_server_rest_len(m: ServerMsgV)
    ensures
        server_split(m).1.len() >= 8,
{
}

pub proof fn lemma_server_unique(b: Seq<u8>, pos: int, m1: ServerMsgV, m2: ServerMsgV)
    requires
        valid_server(m1),
        valid_server(m2),
        at(b, pos, enc_server(m1)),
        at(b, pos, enc_server(m2)),
    ensures
        m1 == m2,
{
    lemma_server_split(m1);
    lemma_server_split(m2);
    let (t1, r1) = server_split(m1);
    let (t2, r2) = server_split(m2);
    lemma_tag_unique(b, pos, t1, r1, t2, r2);
    match (m1, m2) {
        (ServerMsgV::ModelAdded(s1, d1), ServerMsgV::ModelAdded(s2, d2)) => {
            lemma_u64_unique(b, pos + 4, s1.0, enc_data(d1), s2.0, enc_data(d2));
            lemma_data_unique(b, pos + 12, d1, d2);
        },
        (ServerMsgV::ModelChanged(s1, d1), ServerMsgV::ModelChanged(s2, d2)) => {
            lemma_u64_unique(b, pos + 4, s1.0, enc_delta(d1), s2.0, enc_delta(d2));
            lemma_delta_unique(b, pos + 12, d1, d2);
        },
        (ServerMsgV::EntityMap(s1, c1), ServerMsgV::EntityMap(s2, c2)) => {
            lemma_u64_unique(b, pos + 4, s1.0, le64(c1.0), s2.0, le64(c2.0));
            lemma_at_same(b, pos + 12, le64(c1.0), le64(c2.0));
            lemma_le64_injective(c1.0, c2.0);
        },
        (ServerMsgV::GetAllModelData(id1), ServerMsgV::GetAllModelData(id2)) => {
            lemma_at_same(b, pos + 4, le64(id1), le64(id2));
            lemma_le64_injective(id1, id2);
        },
        _ => {},
    }
}

pub proof fn lemma_msg_unique(b: Seq<u8>, pos: int, m1: MsgV, m2: MsgV)
    requires
        valid_msg(m1),
        valid_msg(m2),
        at(b, pos, enc_msg(m1)),
        at(b, pos, enc_msg(m2)),
    ensures
        m1 == m2,
{
    match (m1, m2) {
        (MsgV::Client(c1), MsgV::Client(c2)) => {
            lemma_tag_unique(b, pos, 0, enc_client(c1), 0, enc_client(c2));
            lemma_client_unique(b, pos + 4, c1, c2);
        },
        (MsgV::Server(s1), MsgV::Server(s2)) => {
            lemma_tag_unique(b, pos, 1, enc_server(s1), 1, enc_server(s2));
            lemma_server_unique(b, pos + 4, s1, s2);
        },
        (MsgV::Client(c1), MsgV::Server(s2)) => {
            lemma_tag_unique(b, pos, 0, enc_client(c1), 1, enc_server(s2));
        },
        (MsgV::Server(s1), MsgV::Client(c2)) => {
            lemma_tag_unique(b, pos, 1, enc_server(s1), 0, enc_client(c2));
        },
    }
}

/// Decoding undoes encoding: two messages with the same bytes are the same
/// message, so a decoder that finds a message in an encoding finds the one
/// that was encoded.
pub proof fn lemma_round_trip(m1: MsgV, m2: MsgV)
    requires
        valid_msg(m1),
        valid_msg(m2),
        enc_msg(m1) == enc_msg(m2),
    ensures
        m1 == m2,
{
    let b = enc_msg(m1);
    assert(b.subrange(0, b.len() as int) =~= b);
    lemma_msg_unique(b, 0, m1, m2);
}

proof fn lemma_tag_of(b: Seq<u8>, pos: int, t: u32, t2: u32, r: Seq<u8>)
    requires
        at(b, pos, le32(t)),
        at(b, pos, le32(t2) + r),
    ensures
        t == t2,
        at(b, pos + 4, r),
{
    lemma_at_concat(b, pos, le32(t2), r);
    lemma_at_same(b, pos, le32(t), le32(t2));
    lemma_le32_injective(t, t2);
}

proof fn lemma_u64_of(b: Seq<u8>, pos: int, x: u64, x2: u64, r: Seq<u8>)
    requires
        at(b, pos, le64(x)),
        at(b, pos, le64(x2) + r),
    ensures
        x == x2,
        at(b, pos + 8, r),
{
    lemma_at_concat(b, pos, le64(x2), r);
    lemma_at_same(b, pos, le64(x), le64(x2));
    lemma_le64_injective(x, x2);
}

/// Appends the bytes of `v`.
fn write_bytes(out: &mut Vec<u8>, v: &Vec<u8>)
    ensures
        final(out)@ == old(out)@ + v@,
{
    let mut i: usize = 0;
    while i < v.len()
        invariant
            i <= v@.len(),
            out@ == old(out)@ + v@.subrange(0, i as int),
        decreases v.len() - i,
    {
        out.push(v[i]);
        assert(out@ =~= old(out)@ + v@.subrange(0, i + 1));
        i = i + 1;
    }
    assert(v@.subrange(0, i as int) =~= v@);
}

fn delta_vec(d: &ModelData2) -> (r: Vec<u32>)
    ensures
        r@ == delta_words(*d),
{
    let t = d.transform;
    let c = d.color128;
    let r = vec![
        t.translation.x, t.translation.y, t.translation.z,
        t.rotation.x, t.rotation.y, t.rotation.z, t.rotation.w,
        t.scale.x, t.scale.y, t.scale.z,
        c.r, c.g, c.b, c.a,
        d.render_layer.0,
    ];
    assert(r@ =~= delta_words(*d));
    r
}

fn write_delta(out: &mut Vec<u8>, d: &ModelData2)
    ensures
        final(out)@ == old(out)@ + enc_delta(*d),
{
    let ws = delta_vec(d);
    write_words(out, ws.as_slice());
}

fn write_info(out: &mut Vec<u8>, i: &ModelInfo)
    ensures
        final(out)@ == old(out)@ + enc_info(i@),
        valid_info(i@),
{
    match i {
        ModelInfo::Cube(v) => {
            write_u32(out, 0);
            let ws = vec![v.x, v.y, v.z];
            assert(ws@ =~= vec3_words(*v));
            write_words(out, ws.as_slice());
        },
        ModelInfo::Asset(bs) => {
            write_u32(out, 1);
            write_u64(out, bs.len() as u64);
            write_bytes(out, bs);
        },
    }
    assert(out@ =~= old(out)@ + enc_info(i@));
}

fn write_data(out: &mut Vec<u8>, d: &ModelData)
    ensures
        final(out)@ == old(out)@ + enc_data(d@),
        valid_info(d@.model_info),
{
    write_info(out, &d.model_info);
    let delta = d.delta();
    write_delta(out, &delta);
    assert(out@ =~= old(out)@ + enc_data(d@));
}

fn write_items(out: &mut Vec<u8>, items: &Vec<(ServerEntity, ModelData)>)
    ensures
        final(out)@ == old(out)@ + enc_items(items_view(items@)),
        valid_items(items_view(items@)),
{
    let ghost iv = items_view(items@);
    let mut i: usize = 0;
    assert(iv.subrange(0, 0) =~= Seq::<(ServerEntity, ModelDataV)>::empty());
    assert(old(out)@ + enc_items(iv.subrange(0, 0)) =~= old(out)@);
    while i < items.len()
        invariant
            i <= items@.len(),
            iv == items_view(items@),
            out@ == old(out)@ + enc_items(iv.subrange(0, i as int)),
            forall|k: int| 0 <= k < i ==> valid_info(#[trigger] iv[k].1.model_info),
        decreases items.len() - i,
    {
        let (s, d) = &items[i];
        write_u64(out, s.0);
        write_data(out, d);
        proof {
            let pre = iv.subrange(0, i + 1);
            assert(pre.drop_last() =~= iv.subrange(0, i as int));
            assert(pre.last() == iv[i as int]);
            assert(out@ =~= old(out)@ + enc_items(pre));
        }
        i = i + 1;
    }
    assert(iv.subrange(0, i as int) =~= iv);
}

fn write_client(out: &mut Vec<u8>, m: &ModelMsgClient)
    ensures
        final(out)@ == old(out)@ + enc_client(m@),
        valid_client(m@),
{
    match m {
        ModelMsgClient::ModelAdded(c, d) => {
            write_u32(out, 0);
            write_u64(out, c.0);
            write_data(out, d);
        },
        ModelMsgClient::ModelChanged(s, d) => {
            write_u32(out, 1);
            write_u64(out, s.0);
            write_delta(out, d);
        },
        ModelMsgClient::AllModelData(id, items) => {
            write_u32(out, 2);
            write_u64(out, *id);
            write_u64(out, items.len() as u64);
            write_items(out, items);
        },
    }
    assert(out@ =~= old(out)@ + enc_client(m@));
}

fn write_server(out: &mut Vec<u8>, m: &ModelMsgServer)
    ensures
        final(out)@ == old(out)@ + enc_server(m@),
        valid_server(m@),
{
    match m {
        ModelMsgServer::ModelAdded(s, d) => {
            write_u32(out, 0);
            write_u64(out, s.0);
            write_data(out, d);
        },
        ModelMsgServer::ModelChanged(s, d) => {
            write_u32(out, 1);
            write_u64(out, s.0);
            write_delta(out, d);
        },
        ModelMsgServer::EntityMap(s, c) => {
            write_u32(out, 2);
            write_u64(out, s.0);
            write_u64(out, c.0);
        },
        ModelMsgServer::GetAllModelData(id) => {
            write_u32(out, 3);
            write_u64(out, *id);
        },
    }
    assert(out@ =~= old(out)@ + enc_server(m@));
}

/// The bytes of `m`.
pub fn encode(m: &ModelMsg) -> (r: Vec<u8>)
    ensures
        r@ == enc_msg(m@),
        valid_msg(m@),
{
    let mut out: Vec<u8> = Vec::new();
    match m {
        ModelMsg::Client(c) => {
            write_u32(&mut out, 0);
            write_client(&mut out, c);
        },
        ModelMsg::Server(s) => {
            write_u32(&mut out, 1);
            write_server(&mut out, s);
        },
    }
    assert(out@ =~= enc_msg(m@));
    out
}

fn parse_delta(b: &[u8], pos: usize) -> (r: Option<(ModelData2, usize)>)
    requires
        pos <= b@.len(),
    ensures
        match r {
            Some((d, p)) => p == pos + enc_delta(d).len() && p <= b@.len() && at(b@, pos as int, enc_delta(d)),
            None => forall|d: ModelData2| !at(b@, pos as int, #[trigger] enc_delta(d)),
        },
{
    match read_words(b, pos, 15) {
        Some(ws) => {
            let d = ModelData2 {
                transform: Transform {
                    translation: Vec3 { x: ws[0], y: ws[1], z: ws[2] },
                    rotation: Quat { x: ws[3], y: ws[4], z: ws[5], w: ws[6] },
                    scale: Vec3 { x: ws[7], y: ws[8], z: ws[9] },
                },
                color128: Color128 { r: ws[10], g: ws[11], b: ws[12], a: ws[13] },
                render_layer: RenderLayer(ws[14]),
            };
            assert(ws@ =~= delta_words(d));
            proof { lemma_le_words_len(ws@); }
            assert(b@.len() == b.len());
            Some((d, pos + 60))
        },
        None => {
            assert forall|d: ModelData2| !at(b@, pos as int, #[trigger] enc_delta(d)) by {
                lemma_le_words_len(delta_words(d));
            }
            None
        },
    }
}

/// Model info as its tag and the bytes after it.
spec fn info_split(i: ModelInfoV) -> (u32, Seq<u8>) {
    match i {
        ModelInfoV::Cube(v) => (0, le_words(vec3_words(v))),
        ModelInfoV::Asset(bs) => (1, le64(bs.len() as u64) + bs),
    }
}

proof fn lemma_info_split(i: ModelInfoV)
    ensures
        enc_info(i) == le32(info_split(i).0) + info_split(i).1,
{
    match i {
        ModelInfoV::Cube(v) => {},
        ModelInfoV::Asset(bs) => {
            assert(enc_info(i) =~= le32(1) + (le64(bs.len() as u64) + bs));
        },
    }
}

fn parse_info(b: &[u8], pos: usize) -> (r: Option<(ModelInfo, usize)>)
    requires
        pos <= b@.len(),
    ensures
        match r {
            Some((i, p)) => valid_info(i@) && p == pos + enc_info(i@).len() && p <= b@.len() && at(
                b@,
                pos as int,
                enc_info(i@),
            ),
            None => forall|w: ModelInfoV| valid_info(w) ==> !at(b@, pos as int, #[trigger] enc_info(w)),
        },
{
    assert(b@.len() == b.len());
    let tag = match read_u32(b, pos) {
        Some(t) => t,
        None => {
            assert forall|w: ModelInfoV| valid_info(w) implies !at(b@, pos as int, #[trigger] enc_info(w)) by {
                lemma_info_split(w);
                lemma_at_concat(b@, pos as int, le32(info_split(w).0), info_split(w).1);
            }
            return None;
        },
    };
    let p = pos + 4;
    if tag == 0 {
        match read_words(b, p, 3) {
            Some(ws) => {
                let i = ModelInfo::Cube(Vec3 { x: ws[0], y: ws[1], z: ws[2] });
                assert(ws@ =~= vec3_words(Vec3 { x: ws[0], y: ws[1], z: ws[2] }));
                proof {
                    lemma_le_words_len(ws@);
                    lemma_at_concat(b@, pos as int, le32(0), le_words(ws@));
                }
                Some((i, p + 12))
            },
            None => {
                assert forall|w: ModelInfoV| valid_info(w) implies !at(b@, pos as int, #[trigger] enc_info(w)) by {
                    lemma_info_split(w);
                    if at(b@, pos as int, enc_info(w)) {
                        lemma_tag_of(b@, pos as int, tag, info_split(w).0, info_split(w).1);
                        lemma_le_words_len(vec3_words(w->Cube_0));
                    }
                }
                None
            },
        }
    } else if tag == 1 {
        let n = match read_u64(b, p) {
            Some(n) => n,
            None => {
                assert forall|w: ModelInfoV| valid_info(w) implies !at(b@, pos as int, #[trigger] enc_info(w)) by {
                    lemma_info_split(w);
                    if at(b@, pos as int, enc_info(w)) {
                        lemma_tag_of(b@, pos as int, tag, info_split(w).0, info_split(w).1);
                        lemma_at_concat(b@, p as int, le64(w->Asset_0.len() as u64), w->Asset_0);
                    }
                }
                return None;
            },
        };
        match read_bytes(b, p + 8, n) {
            Some(v) => {
                proof {
                    lemma_at_concat(b@, p as int, le64(n), v@);
                    lemma_at_concat(b@, pos as int, le32(1), le64(n) + v@);
                    lemma_info_split(ModelInfoV::Asset(v@));
                }
                let q = p + 8 + v.len();
                Some((ModelInfo::Asset(v), q))
            },
            None => {
                assert forall|w: ModelInfoV| valid_info(w) implies !at(b@, pos as int, #[trigger] enc_info(w)) by {
                    lemma_info_split(w);
                    if at(b@, pos as int, enc_info(w)) {
                        lemma_tag_of(b@, pos as int, tag, info_split(w).0, info_split(w).1);
                        lemma_u64_of(b@, p as int, n, w->Asset_0.len() as u64, w->Asset_0);
                    }
                }
                None
            },
        }
    } else {
        assert forall|w: ModelInfoV| valid_info(w) implies !at(b@, pos as int, #[trigger] enc_info(w)) by {
            lemma_info_split(w);
            if at(b@, pos as int, enc_info(w)) {
                lemma_tag_of(b@, pos as int, tag, info_split(w).0, info_split(w).1);
            }
        }
        None
    }
}

fn parse_data(b: &[u8], pos: usize) -> (r: Option<(ModelData, usize)>)
    requires
        pos <= b@.len(),
    ensures
        match r {
            Some((d, p)) => valid_info(d@.model_info) && p == pos + enc_data(d@).len() && p <= b@.len()
                && at(b@, pos as int, enc_data(d@)),
            None => forall|w: ModelDataV| valid_info(w.model_info) ==> !at(b@, pos as int, #[trigger] enc_data(w)),
        },
{
    let (info, p) = match parse_info(b, pos) {
        Some(x) => x,
        None => {
            assert forall|w: ModelDataV| valid_info(w.model_info) implies !at(b@, pos as int, #[trigger] enc_data(w)) by {
                lemma_at_concat(b@, pos as int, enc_info(w.model_info), enc_delta(w.delta()));
            }
            return None;
        },
    };
    match parse_delta(b, p) {
        Some((d2, q)) => {
            let d = ModelData {
                model_info: info,
                transform: d2.transform,
                color128: d2.color128,
                render_layer: d2.render_layer,
            };
            proof {
                assert(d@.delta() == d2);
                lemma_at_concat(b@, pos as int, enc_info(d@.model_info), enc_delta(d2));
            }
            Some((d, q))
        },
        None => {
            assert forall|w: ModelDataV| valid_info(w.model_info) implies !at(b@, pos as int, #[trigger] enc_data(w)) by {
                lemma_at_concat(b@, pos as int, enc_info(w.model_info), enc_delta(w.delta()));
                if at(b@, pos as int, enc_data(w)) {
                    lemma_info_unique(b@, pos as int, w.model_info, info@);
                }
            }
            None
        },
    }
}

fn parse_item(b: &[u8], pos: usize) -> (r: Option<((ServerEntity, ModelData), usize)>)
    requires
        pos <= b@.len(),
    ensures
        match r {
            Some((it, p)) => valid_info(it.1@.model_info) && p == pos + enc_item((it.0, it.1@)).len()
                && p <= b@.len() && at(b@, pos as int, enc_item((it.0, it.1@))),
            None => forall|w: (ServerEntity, ModelDataV)| valid_info(w.1.model_info) ==> !at(b@, pos as int, #[trigger] enc_item(w)),
        },
{
    assert(b@.len() == b.len());
    let s = match read_u64(b, pos) {
        Some(s) => s,
        None => {
            assert forall|w: (ServerEntity, ModelDataV)| valid_info(w.1.model_info) implies !at(b@, pos as int, #[trigger] enc_item(w)) by {
                lemma_at_concat(b@, pos as int, le64(w.0.0), enc_data(w.1));
            }
            return None;
        },
    };
    match parse_data(b, pos + 8) {
        Some((d, p)) => {
            proof { lemma_at_concat(b@, pos as int, le64(s), enc_data(d@)); }
            Some(((ServerEntity(s), d), p))
        },
        None => {
            assert forall|w: (ServerEntity, ModelDataV)| valid_info(w.1.model_info) implies !at(b@, pos as int, #[trigger] enc_item(w)) by {
                if at(b@, pos as int, enc_item(w)) {
                    lemma_u64_of(b@, pos as int, s, w.0.0, enc_data(w.1));
                }
            }
            None
        },
    }
}

proof fn lemma_items_prefix(b: Seq<u8>, pos: int, w: Seq<(ServerEntity, ModelDataV)>, k: int)
    requires
        at(b, pos, enc_items(w)),
        0 <= k <= w.len(),
    ensures
        at(b, pos, enc_items(w.take(k))),
    decreases w.len(),
{
    if k == w.len() {
        assert(w.take(k) =~= w);
    } else {
        lemma_at_concat(b, pos, enc_items(w.drop_last()), enc_item(w.last()));
        lemma_items_prefix(b, pos, w.drop_last(), k);
        assert(w.drop_last().take(k) =~= w.take(k));
    }
}

fn parse_items(b: &[u8], pos: usize, count: u64) -> (r: Option<(Vec<(ServerEntity, ModelData)>, usize)>)
    requires
        pos <= b@.len(),
    ensures
        match r {
            Some((v, p)) => valid_items(items_view(v@)) && v@.len() == count && p == pos + enc_items(items_view(v@)).len()
                && p <= b@.len() && at(b@, pos as int, enc_items(items_view(v@))),
            None => forall|w: Seq<(ServerEntity, ModelDataV)>| valid_items(w) && w.len() == count ==> !at(b@, pos as int, #[trigger] enc_items(w)),
        },
{
    let mut v: Vec<(ServerEntity, ModelData)> = Vec::new();
    let mut p: usize = pos;
    let mut i: u64 = 0;
    assert(b@.subrange(pos as int, pos as int) =~= Seq::<u8>::empty());
    assert(enc_items(items_view(v@)) =~= Seq::<u8>::empty());
    while i < count
        invariant
            i <= count,
            v@.len() == i,
            pos <= p <= b@.len(),
            p == pos + enc_items(items_view(v@)).len(),
            at(b@, pos as int, enc_items(items_view(v@))),
            forall|k: int| 0 <= k < i ==> valid_info(#[trigger] items_view(v@)[k].1.model_info),
        decreases count - i,
    {
        match parse_item(b, p) {
            Some((it, q)) => {
                let ghost old_v = items_view(v@);
                v.push(it);
                proof {
                    let nv = items_view(v@);
                    assert(nv.drop_last() =~= old_v);
                    assert(nv.last() == (it.0, it.1@));
                    lemma_at_concat(b@, pos as int, enc_items(old_v), enc_item(nv.last()));
                    assert(forall|k: int| 0 <= k < i ==> nv[k] == old_v[k]);
                }
                p = q;
                i = i + 1;
            },
            None => {
                assert forall|w: Seq<(ServerEntity, ModelDataV)>| valid_items(w) && w.len() == count implies !at(b@, pos as int, #[trigger] enc_items(w)) by {
                    if at(b@, pos as int, enc_items(w)) {
                        let cur = items_view(v@);
                        lemma_items_prefix(b@, pos as int, w, i as int);
                        lemma_items_prefix(b@, pos as int, w, i + 1);
                        let h = w.take(i as int);
                        assert(valid_items(h)) by {
                            assert forall|k: int| 0 <= k < h.len() implies valid_info(#[trigger] h[k].1.model_info) by {
                                assert(h[k] == w[k]);
                            }
                        }
                        assert(valid_items(cur));
                        lemma_items_unique(b@, pos as int, h, cur);
                        assert(w.take(i + 1).drop_last() =~= h);
                        lemma_at_concat(b@, pos as int, enc_items(h), enc_item(w[i as int]));
                        assert(valid_info(w[i as int].1.model_info));
                    }
                }
                return None;
            },
        }
    }
    Some((v, p))
}

#[verifier::rlimit(100)]
#[verifier::spinoff_prover]
fn parse_client(b: &[u8], pos: usize) -> (r: Option<(ModelMsgClient, usize)>)
    requires
        pos <= b@.len(),
    ensures
        match r {
            Some((m, p)) => valid_client(m@) && p == pos + enc_client(m@).len() && p <= b@.len() && at(
                b@,
                pos as int,
                enc_client(m@),
            ),
            None => forall|w: ClientMsgV| valid_client(w) ==> !at(b@, pos as int, #[trigger] enc_client(w)),
        },
{
    assert(b@.len() == b.len());
    let tag = match read_u32(b, pos) {
        Some(t) => t,
        None => {
            assert forall|w: ClientMsgV| valid_client(w) implies !at(b@, pos as int, #[trigger] enc_client(w)) by {
                lemma_client_split(w);
                lemma_at_concat(b@, pos as int, le32(client_split(w).0), client_split(w).1);
            }
            return None;
        },
    };
    let p = pos + 4;
    let first = match read_u64(b, p) {
        Some(x) => x,
        None => {
            assert forall|w: ClientMsgV| valid_client(w) implies !at(b@, pos as int, #[trigger] enc_client(w)) by {
                lemma_client_split(w);
                if at(b@, pos as int, enc_client(w)) {
                    lemma_tag_of(b@, pos as int, tag, client_split(w).0, client_split(w).1);
                    match w {
                        ClientMsgV::ModelAdded(c, d) => lemma_at_concat(b@, p as int, le64(c.0), enc_data(d)),
                        ClientMsgV::ModelChanged(s, d) => lemma_at_concat(b@, p as int, le64(s.0), enc_delta(d)),
                        ClientMsgV::AllModelData(id, v) => lemma_at_concat(b@, p as int, le64(id), le64(v.len() as u64) + enc_items(v)),
                    }
                }
            }
            return None;
        },
    };
    let q = p + 8;
    if tag == 0 {
        match parse_data(b, q) {
            Some((d, e)) => {
                let m = ModelMsgClient::ModelAdded(ClientEntity(first), d);
                proof {
                    lemma_client_split(m@);
                    lemma_at_concat(b@, p as int, le64(first), enc_data(d@));
                    lemma_at_concat(b@, pos as int, le32(0), le64(first) + enc_data(d@));
                }
                Some((m, e))
            },
            None => {
                assert forall|w: ClientMsgV| valid_client(w) implies !at(b@, pos as int, #[trigger] enc_client(w)) by {
                    lemma_client_split(w);
                    if at(b@, pos as int, enc_client(w)) {
                        lemma_tag_of(b@, pos as int, tag, client_split(w).0, client_split(w).1);
                        lemma_u64_of(b@, p as int, first, w->ModelAdded_0.0, enc_data(w->ModelAdded_1));
                    }
                }
                None
            },
        }
    } else if tag == 1 {
        match parse_delta(b, q) {
            Some((d, e)) => {
                let m = ModelMsgClient::ModelChanged(ServerEntity(first), d);
                proof {
                    lemma_client_split(m@);
                    lemma_at_concat(b@, p as int, le64(first), enc_delta(d));
                    lemma_at_concat(b@, pos as int, le32(1), le64(first) + enc_delta(d));
                }
                Some((m, e))
            },
            None => {
                assert forall|w: ClientMsgV| valid_client(w) implies !at(b@, pos as int, #[trigger] enc_client(w)) by {
                    lemma_client_split(w);
                    if at(b@, pos as int, enc_client(w)) {
                        lemma_tag_of(b@, pos as int, tag, client_split(w).0, client_split(w).1);
                        lemma_u64_of(b@, p as int, first, w->ModelChanged_0.0, enc_delta(w->ModelChanged_1));
                    }
                }
                None
            },
        }
    } else if tag == 2 {
        let n = match read_u64(b, q) {
            Some(n) => n,
            None => {
                assert forall|w: ClientMsgV| valid_client(w) implies !at(b@, pos as int, #[trigger] enc_client(w)) by {
                    lemma_client_split(w);
                    if at(b@, pos as int, enc_client(w)) {
                        lemma_tag_of(b@, pos as int, tag, client_split(w).0, client_split(w).1);
                        let v = w->AllModelData_1;
                        lemma_u64_of(b@, p as int, first, w->AllModelData_0, le64(v.len() as u64) + enc_items(v));
                        lemma_at_concat(b@, q as int, le64(v.len() as u64), enc_items(v));
                    }
                }
                return None;
            },
        };
        match parse_items(b, q + 8, n) {
            Some((v, e)) => {
                let m = ModelMsgClient::AllModelData(first, v);
                proof {
                    let iv = items_view(v@);
                    lemma_client_split(m@);
                    lemma_at_concat(b@, q as int, le64(n), enc_items(iv));
                    lemma_at_concat(b@, p as int, le64(first), le64(n) + enc_items(iv));
                    lemma_at_concat(b@, pos as int, le32(2), le64(first) + (le64(n) + enc_items(iv)));
                }
                Some((m, e))
            },
            None => {
                assert forall|w: ClientMsgV| valid_client(w) implies !at(b@, pos as int, #[trigger] enc_client(w)) by {
                    lemma_client_split(w);
                    if at(b@, pos as int, enc_client(w)) {
                        lemma_tag_of(b@, pos as int, tag, client_split(w).0, client_split(w).1);
                        let v = w->AllModelData_1;
                        lemma_u64_of(b@, p as int, first, w->AllModelData_0, le64(v.len() as u64) + enc_items(v));
                        lemma_u64_of(b@, q as int, n, v.len() as u64, enc_items(v));
                    }
                }
                None
            },
        }
    } else {
        assert forall|w: ClientMsgV| valid_client(w) implies !at(b@, pos as int, #[trigger] enc_client(w)) by {
            lemma_client_split(w);
            if at(b@, pos as int, enc_client(w)) {
                lemma_tag_of(b@, pos as int, tag, client_split(w).0, client_split(w).1);
            }
        }
        None
    }
}

#[verifier::rlimit(100)]
#[verifier::spinoff_prover]
fn parse_server(b: &[u8], pos: usize) -> (r: Option<(ModelMsgServer, usize)>)
    requires
        pos <= b@.len(),
    ensures
        match r {
            Some((m, p)) => valid_server(m@) && p == pos + enc_server(m@).len() && p <= b@.len() && at(
                b@,
                pos as int,
                enc_server(m@),
            ),
            None => forall|w: ServerMsgV| valid_server(w) ==> !at(b@, pos as int, #[trigger] enc_server(w)),
        },
{
    assert(b@.len() == b.len());
    let tag = match read_u32(b, pos) {
        Some(t) => t,
        None => {
            assert forall|w: ServerMsgV| valid_server(w) implies !at(b@, pos as int, #[trigger] enc_server(w)) by {
                lemma_server_split(w);
                lemma_at_concat(b@, pos as int, le32(server_split(w).0), server_split(w).1);
            }
            return None;
        },
    };
    let p = pos + 4;
    if tag > 3 {
        assert forall|w: ServerMsgV| valid_server(w) implies !at(b@, pos as int, #[trigger] enc_server(w)) by {
            lemma_server_split(w);
            if at(b@, pos as int, enc_server(w)) {
                lemma_tag_of(b@, pos as int, tag, server_split(w).0, server_split(w).1);
            }
        }
        return None;
    }
    let first = match read_u64(b, p) {
        Some(x) => x,
        None => {
            assert forall|w: ServerMsgV| valid_server(w) implies !at(b@, pos as int, #[trigger] enc_server(w)) by {
                lemma_server_split(w);
                if at(b@, pos as int, enc_server(w)) {
                    lemma_tag_of(b@, pos as int, tag, server_split(w).0, server_split(w).1);
                    lemma_server_rest_len(w);
                }
            }
            return None;
        },
    };
    let q = p + 8;
    if tag == 0 {
        match parse_data(b, q) {
            Some((d, e)) => {
                let m = ModelMsgServer::ModelAdded(ServerEntity(first), d);
                proof {
                    lemma_server_split(m@);
                    lemma_at_concat(b@, p as int, le64(first), enc_data(d@));
                    lemma_at_concat(b@, pos as int, le32(0), le64(first) + enc_data(d@));
                }
                Some((m, e))
            },
            None => {
                assert forall|w: ServerMsgV| valid_server(w) implies !at(b@, pos as int, #[trigger] enc_server(w)) by {
                    lemma_server_split(w);
                    if at(b@, pos as int, enc_server(w)) {
                        lemma_tag_of(b@, pos as int, tag, server_split(w).0, server_split(w).1);
                        lemma_u64_of(b@, p as int, first, w->ModelAdded_0.0, enc_data(w->ModelAdded_1));
                    }
                }
                None
            },
        }
    } else if tag == 1 {
        match parse_delta(b, q) {
            Some((d, e)) => {
                let m = ModelMsgServer::ModelChanged(ServerEntity(first), d);
                proof {
                    lemma_server_split(m@);
                    lemma_at_concat(b@, p as int, le64(first), enc_delta(d));
                    lemma_at_concat(b@, pos as int, le32(1), le64(first) + enc_delta(d));
                }
                Some((m, e))
            },
            None => {
                assert forall|w: ServerMsgV| valid_server(w) implies !at(b@, pos as int, #[trigger] enc_server(w)) by {
                    lemma_server_split(w);
                    if at(b@, pos as int, enc_server(w)) {
                        lemma_tag_of(b@, pos as int, tag, server_split(w).0, server_split(w).1);
                        lemma_u64_of(b@, p as int, first, w->ModelChanged_0.0, enc_delta(w->ModelChanged_1));
                    }
                }
                None
            },
        }
    } else if tag == 2 {
        match read_u64(b, q) {
            Some(c) => {
                let m = ModelMsgServer::EntityMap(ServerEntity(first), ClientEntity(c));
                proof {
                    lemma_server_split(m@);
                    lemma_at_concat(b@, p as int, le64(first), le64(c));
                    lemma_at_concat(b@, pos as int, le32(2), le64(first) + le64(c));
                }
                Some((m, q + 8))
            },
            None => {
                assert forall|w: ServerMsgV| valid_server(w) implies !at(b@, pos as int, #[trigger] enc_server(w)) by {
                    lemma_server_split(w);
                    if at(b@, pos as int, enc_server(w)) {
                        lemma_tag_of(b@, pos as int, tag, server_split(w).0, server_split(w).1);
                        lemma_u64_of(b@, p as int, first, w->EntityMap_0.0, le64(w->EntityMap_1.0));
                    }
                }
                None
            },
        }
    } else {
        let m = ModelMsgServer::GetAllModelData(first);
        proof {
            lemma_server_split(m@);
            lemma_at_concat(b@, pos as int, le32(3), le64(first));
        }
        Some((m, q))
    }
}

/// Where `b` is the encoding of `w`: the tag at the start, and the rest.
proof fn lemma_msg_parts(b: Seq<u8>, w: MsgV)
    requires
        b == enc_msg(w),
    ensures
        at(b, 0, enc_msg(w)),
        w is Client ==> at(b, 0, le32(0)) && at(b, 4, enc_client(w->Client_0)),
        w is Server ==> at(b, 0, le32(1)) && at(b, 4, enc_server(w->Server_0)),
{
    assert(b.subrange(0, b.len() as int) =~= b);
    match w {
        MsgV::Client(c) => lemma_at_concat(b, 0, le32(0), enc_client(c)),
        MsgV::Server(s) => lemma_at_concat(b, 0, le32(1), enc_server(s)),
    }
}

/// The message whose bytes are exactly `b`; `None` where `b` is the
/// encoding of no message.
pub fn decode(b: &[u8]) -> (r: Option<ModelMsg>)
    ensures
        match r {
            Some(m) => valid_msg(m@) && b@ == enc_msg(m@),
            None => forall|w: MsgV| valid_msg(w) ==> b@ != #[trigger] enc_msg(w),
        },
        forall|w: MsgV| valid_msg(w) && b@ == #[trigger] enc_msg(w) ==> r is Some && r->0@ == w,
{
    assert(b@.len() == b.len());
    let tag = match read_u32(b, 0) {
        Some(t) => t,
        None => {
            assert forall|w: MsgV| valid_msg(w) implies b@ != #[trigger] enc_msg(w) by {
                if b@ == enc_msg(w) {
                    lemma_msg_parts(b@, w);
                }
            }
            return None;
        },
    };
    let r = if tag == 0 {
        match parse_client(b, 4) {
            Some((c, p)) => {
                proof { lemma_at_concat(b@, 0, le32(0), enc_client(c@)); }
                if p == b.len() {
                    Some(ModelMsg::Client(c))
                } else {
                    assert forall|w: MsgV| valid_msg(w) implies b@ != #[trigger] enc_msg(w) by {
                        if b@ == enc_msg(w) {
                            lemma_msg_parts(b@, w);
                            lemma_at_same(b@, 0, le32(tag), le32(if w is Client { 0u32 } else { 1u32 }));
                            lemma_le32_injective(tag, if w is Client { 0u32 } else { 1u32 });
                            lemma_client_unique(b@, 4, c@, w->Client_0);
                        }
                    }
                    None
                }
            },
            None => {
                assert forall|w: MsgV| valid_msg(w) implies b@ != #[trigger] enc_msg(w) by {
                    if b@ == enc_msg(w) {
                        lemma_msg_parts(b@, w);
                        lemma_at_same(b@, 0, le32(tag), le32(if w is Client { 0u32 } else { 1u32 }));
                        lemma_le32_injective(tag, if w is Client { 0u32 } else { 1u32 });
                    }
                }
                None
            },
        }
    } else if tag == 1 {
        match parse_server(b, 4) {
            Some((s, p)) => {
                proof { lemma_at_concat(b@, 0, le32(1), enc_server(s@)); }
                if p == b.len() {
                    Some(ModelMsg::Server(s))
                } else {
                    assert forall|w: MsgV| valid_msg(w) implies b@ != #[trigger] enc_msg(w) by {
                        if b@ == enc_msg(w) {
                            lemma_msg_parts(b@, w);
                            lemma_at_same(b@, 0, le32(tag), le32(if w is Client { 0u32 } else { 1u32 }));
                            lemma_le32_injective(tag, if w is Client { 0u32 } else { 1u32 });
                            lemma_server_unique(b@, 4, s@, w->Server_0);
                        }
                    }
                    None
                }
            },
            None => {
                assert forall|w: MsgV| valid_msg(w) implies b@ != #[trigger] enc_msg(w) by {
                    if b@ == enc_msg(w) {
                        lemma_msg_parts(b@, w);
                        lemma_at_same(b@, 0, le32(tag), le32(if w is Client { 0u32 } else { 1u32 }));
                        lemma_le32_injective(tag, if w is Client { 0u32 } else { 1u32 });
                    }
                }
                None
            },
        }
    } else {
        assert forall|w: MsgV| valid_msg(w) implies b@ != #[trigger] enc_msg(w) by {
            if b@ == enc_msg(w) {
                lemma_msg_parts(b@, w);
                lemma_at_same(b@, 0, le32(tag), le32(if w is Client { 0u32 } else { 1u32 }));
                lemma_le32_injective(tag, if w is Client { 0u32 } else { 1u32 });
            }
        }
        None
    };
    proof {
        if r is Some {
            assert(b@ =~= b@.subrange(0, enc_msg(r->0@).len() as int));
            assert forall|w: MsgV| valid_msg(w) && b@ == #[trigger] enc_msg(w) implies r is Some && r->0@ == w by {
                lemma_msg_parts(b@, w);
                lemma_msg_unique(b@, 0, w, r->0@);
            }
        }
    }
    r
}

/// The ten words of a transform: translation, rotation, scale.
pub open spec fn transform_words(t: Transform) -> Seq<u32> {
    seq![
        t.translation.x, t.translation.y, t.translation.z,
        t.rotation.x, t.rotation.y, t.rotation.z, t.rotation.w,
        t.scale.x, t.scale.y, t.scale.z,
    ]
}

pub open spec fn enc_transform(t: Transform) -> Seq<u8> {
    le_words(transform_words(t))
}

/// A player message as its tag, its first handle or id, and the bytes after.
pub open spec fn player_client_split(m: PlayerMsgClient) -> (u32, u64, Seq<u8>) {
    match m {
        PlayerMsgClient::PlayerAdded(s, t) => (0, s.0, enc_transform(t)),
        PlayerMsgClient::PlayerChanged(s, t) => (1, s.0, enc_transform(t)),
        PlayerMsgClient::EntityMap(s, c) => (2, s.0, le64(c.0)),
        PlayerMsgClient::GetAllPlayers(id) => (3, id, Seq::empty()),
    }
}

/// The bytes of a player message for a client.
pub open spec fn enc_player_client(m: PlayerMsgClient) -> Seq<u8> {
    le32(player_client_split(m).0) + (le64(player_client_split(m).1) + player_client_split(m).2)
}

proof fn lemma_transform_unique(b: Seq<u8>, pos: int, t1: Transform, t2: Transform)
    requires
        at(b, pos, enc_transform(t1)),
        at(b, pos, enc_transform(t2)),
    ensures
        t1 == t2,
{
    lemma_le_words_len(transform_words(t1));
    lemma_le_words_len(transform_words(t2));
    lemma_at_same(b, pos, enc_transform(t1), enc_transform(t2));
    lemma_le_words_injective(transform_words(t1), transform_words(t2));
    let (w1, w2) = (transform_words(t1), transform_words(t2));
    assert(w1[0] == w2[0] && w1[1] == w2[1] && w1[2] == w2[2] && w1[3] == w2[3]);
    assert(w1[4] == w2[4] && w1[5] == w2[5] && w1[6] == w2[6] && w1[7] == w2[7]);
    assert(w1[8] == w2[8] && w1[9] == w2[9]);
}

/// Two player messages with the same bytes are the same message, so the
/// player decoder finds the message that was encoded.
pub proof fn lemma_player_round_trip(m1: PlayerMsgClient, m2: PlayerMsgClient)
    requires
        enc_player_client(m1) == enc_player_client(m2),
    ensures
        m1 == m2,
{
    let b = enc_player_client(m1);
    assert(b.subrange(0, b.len() as int) =~= b);
    let (t1, x1, r1) = player_client_split(m1);
    let (t2, x2, r2) = player_client_split(m2);
    lemma_tag_unique(b, 0, t1, le64(x1) + r1, t2, le64(x2) + r2);
    lemma_u64_unique(b, 4, x1, r1, x2, r2);
    match (m1, m2) {
        (PlayerMsgClient::PlayerAdded(_, a), PlayerMsgClient::PlayerAdded(_, c)) => lemma_transform_unique(b, 12, a, c),
        (PlayerMsgClient::PlayerChanged(_, a), PlayerMsgClient::PlayerChanged(_, c)) => lemma_transform_unique(b, 12, a, c),
        (PlayerMsgClient::EntityMap(_, a), PlayerMsgClient::EntityMap(_, c)) => {
            lemma_at_same(b, 12, le64(a.0), le64(c.0));
            lemma_le64_injective(a.0, c.0);
        },
        _ => {},
    }
}

/// Appends the words of a transform.
fn write_transform(out: &mut Vec<u8>, t: &Transform)
    ensures
        final(out)@ == old(out)@ + enc_transform(*t),
{
    let ws = vec![
        t.translation.x, t.translation.y, t.translation.z,
        t.rotation.x, t.rotation.y, t.rotation.z, t.rotation.w,
        t.scale.x, t.scale.y, t.scale.z,
    ];
    assert(ws@ =~= transform_words(*t));
    write_words(out, ws.as_slice());
}

/// The bytes of the player message `m`.
pub fn encode_player_client(m: &PlayerMsgClient) -> (r: Vec<u8>)
    ensures
        r@ == enc_player_client(*m),
{
    let mut out: Vec<u8> = Vec::new();
    match m {
        PlayerMsgClient::PlayerAdded(s, t) => {
            write_u32(&mut out, 0);
            write_u64(&mut out, s.0);
            write_transform(&mut out, t);
        },
        PlayerMsgClient::PlayerChanged(s, t) => {
            write_u32(&mut out, 1);
            write_u64(&mut out, s.0);
            write_transform(&mut out, t);
        },
        PlayerMsgClient::EntityMap(s, c) => {
            write_u32(&mut out, 2);
            write_u64(&mut out, s.0);
            write_u64(&mut out, c.0);
        },
        PlayerMsgClient::GetAllPlayers(id) => {
            write_u32(&mut out, 3);
            write_u64(&mut out, *id);
        },
    }
    assert(out@ =~= enc_player_client(*m));
    out
}

/// Where `b` is the encoding of `w`: the tag, the first handle, the rest.
proof fn lemma_player_parts(b: Seq<u8>, w: PlayerMsgClient)
    requires
        b == enc_player_client(w),
    ensures
        at(b, 0, le32(player_client_split(w).0)),
        at(b, 4, le64(player_client_split(w).1)),
        at(b, 12, player_client_split(w).2),
        b.len() == 12 + player_client_split(w).2.len(),
{
    let (t, x, r) = player_client_split(w);
    assert(b.subrange(0, b.len() as int) =~= b);
    lemma_at_concat(b, 0, le32(t), le64(x) + r);
    lemma_at_concat(b, 4, le64(x), r);
}

/// `b` is the encoding of `m` when its parts stand where they belong.
proof fn lemma_player_assemble(b: Seq<u8>, m: PlayerMsgClient)
    requires
        at(b, 0, le32(player_client_split(m).0)),
        at(b, 4, le64(player_client_split(m).1)),
        at(b, 12, player_client_split(m).2),
        b.len() == 12 + player_client_split(m).2.len(),
    ensures
        b == enc_player_client(m),
{
    let (t, x, rest) = player_client_split(m);
    assert(b =~= b.subrange(0, 4) + (b.subrange(4, 12) + b.subrange(12, b.len() as int)));
}

/// The same tag and handle cannot be read twice at one place with two
/// different values.
proof fn lemma_same_head(b: Seq<u8>, tag: u32, tw: u32, first: u64, xw: u64)
    requires
        at(b, 0, le32(tag)),
        at(b, 0, le32(tw)),
        at(b, 4, le64(first)),
        at(b, 4, le64(xw)),
    ensures
        tag == tw,
        first == xw,
{
    lemma_at_same(b, 0, le32(tag), le32(tw));
    lemma_le32_injective(tag, tw);
    lemma_at_same(b, 4, le64(first), le64(xw));
    lemma_le64_injective(first, xw);
}

/// Where `b` encodes `m`, it encodes no other message.
proof fn lemma_player_found(b: Seq<u8>, m: PlayerMsgClient)
    requires
        b == enc_player_client(m),
    ensures
        forall|w: PlayerMsgClient| b == #[trigger] enc_player_client(w) ==> w == m,
{
    assert forall|w: PlayerMsgClient| b == #[trigger] enc_player_client(w) implies w == m by {
        lemma_player_round_trip(w, m);
    }
}

/// The player message whose bytes are exactly `b`; `None` where `b` is the
/// encoding of no player message.
pub fn decode_player_client(b: &[u8]) -> (r: Option<PlayerMsgClient>)
    ensures
        match r {
            Some(m) => b@ == enc_player_client(m),
            None => forall|w: PlayerMsgClient| b@ != #[trigger] enc_player_client(w),
        },
        forall|w: PlayerMsgClient| b@ == #[trigger] enc_player_client(w) ==> r == Some(w),
{
    assert(b@.len() == b.len());
    let tag = match read_u32(b, 0) {
        Some(t) => t,
        None => {
            assert forall|w: PlayerMsgClient| b@ != #[trigger] enc_player_client(w) by {
                if b@ == enc_player_client(w) {
                    lemma_player_parts(b@, w);
                }
            }
            return None;
        },
    };
    let first = match read_u64(b, 4) {
        Some(x) => x,
        None => {
            assert forall|w: PlayerMsgClient| b@ != #[trigger] enc_player_client(w) by {
                if b@ == enc_player_client(w) {
                    lemma_player_parts(b@, w);
                }
            }
            return None;
        },
    };
    if tag == 0 || tag == 1 {
        let ws = match read_words(b, 12, 10) {
            Some(ws) => ws,
            None => {
                assert forall|w: PlayerMsgClient| b@ != #[trigger] enc_player_client(w) by {
                    if b@ == enc_player_client(w) {
                        lemma_player_parts(b@, w);
                        lemma_same_head(b@, tag, player_client_split(w).0, first, player_client_split(w).1);
                        match w {
                            PlayerMsgClient::PlayerAdded(_, t) => lemma_le_words_len(transform_words(t)),
                            PlayerMsgClient::PlayerChanged(_, t) => lemma_le_words_len(transform_words(t)),
                            _ => {},
                        }
                    }
                }
                return None;
            },
        };
        let t = Transform {
            translation: Vec3 { x: ws[0], y: ws[1], z: ws[2] },
            rotation: Quat { x: ws[3], y: ws[4], z: ws[5], w: ws[6] },
            scale: Vec3 { x: ws[7], y: ws[8], z: ws[9] },
        };
        assert(ws@ =~= transform_words(t));
        proof { lemma_le_words_len(transform_words(t)); }
        if b.len() != 52 {
            assert forall|w: PlayerMsgClient| b@ != #[trigger] enc_player_client(w) by {
                if b@ == enc_player_client(w) {
                    lemma_player_parts(b@, w);
                        lemma_same_head(b@, tag, player_client_split(w).0, first, player_client_split(w).1);
                    match w {
                        PlayerMsgClient::PlayerAdded(_, u) => lemma_le_words_len(transform_words(u)),
                        PlayerMsgClient::PlayerChanged(_, u) => lemma_le_words_len(transform_words(u)),
                        _ => {},
                    }
                }
            }
            return None;
        }
        let m = if tag == 0 {
            PlayerMsgClient::PlayerAdded(ServerEntity(first), t)
        } else {
            PlayerMsgClient::PlayerChanged(ServerEntity(first), t)
        };
        proof {
            lemma_player_assemble(b@, m);
            lemma_player_found(b@, m);
        }
        Some(m)
    } else if tag == 2 {
        let c = match read_u64(b, 12) {
            Some(c) => c,
            None => {
                assert forall|w: PlayerMsgClient| b@ != #[trigger] enc_player_client(w) by {
                    if b@ == enc_player_client(w) {
                        lemma_player_parts(b@, w);
                        lemma_same_head(b@, tag, player_client_split(w).0, first, player_client_split(w).1);
                    }
                }
                return None;
            },
        };
        if b.len() != 20 {
            assert forall|w: PlayerMsgClient| b@ != #[trigger] enc_player_client(w) by {
                if b@ == enc_player_client(w) {
                    lemma_player_parts(b@, w);
                        lemma_same_head(b@, tag, player_client_split(w).0, first, player_client_split(w).1);
                }
            }
            return None;
        }
        let m = PlayerMsgClient::EntityMap(ServerEntity(first), ClientEntity(c));
        proof {
            lemma_player_assemble(b@, m);
            lemma_player_found(b@, m);
        }
        Some(m)
    } else if tag == 3 {
        assert(b@.subrange(12, 12) =~= Seq::<u8>::empty());
        if b.len() != 12 {
            assert forall|w: PlayerMsgClient| b@ != #[trigger] enc_player_client(w) by {
                if b@ == enc_player_client(w) {
                    lemma_player_parts(b@, w);
                        lemma_same_head(b@, tag, player_client_split(w).0, first, player_client_split(w).1);
                }
            }
            return None;
        }
        let m = PlayerMsgClient::GetAllPlayers(first);
        proof {
            lemma_player_assemble(b@, m);
            lemma_player_found(b@, m);
        }
        Some(m)
    } else {
        assert forall|w: PlayerMsgClient| b@ != #[trigger] enc_player_client(w) by {
            if b@ == enc_player_client(w) {
                lemma_player_parts(b@, w);
                        lemma_same_head(b@, tag, player_client_split(w).0, first, player_client_split(w).1);
            }
        }
        None
    }
}

pub open spec fn enc_player_items(v: Seq<(ServerEntity, Transform)>) -> Seq<u8>
    decreases v.len(),
{
    if v.len() == 0 {
        Seq::empty()
    } else {
        enc_player_items(v.drop_last()) + (le64(v.last().0.0) + enc_transform(v.last().1))
    }
}

/// The bytes of a player message for the server.
pub open spec fn enc_player_server(m: PlayerServerV) -> Seq<u8> {
    match m {
        PlayerServerV::PlayerAdded(c, t) => le32(0) + le64(c.0) + enc_transform(t),
        PlayerServerV::PlayerChanged(s, t) => le32(1) + le64(s.0) + enc_transform(t),
        PlayerServerV::AllPlayerData(id, v) => le32(2) + le64(id) + le64(v.len() as u64) + enc_player_items(v),
    }
}

/// The bytes of the player message `m`.
pub fn encode_player_server(m: &PlayerMsgServer) -> (r: Vec<u8>)
    ensures
        r@ == enc_player_server(m@),
{
    let mut out: Vec<u8> = Vec::new();
    match m {
        PlayerMsgServer::PlayerAdded(c, t) => {
            write_u32(&mut out, 0);
            write_u64(&mut out, c.0);
            write_transform(&mut out, t);
        },
        PlayerMsgServer::PlayerChanged(s, t) => {
            write_u32(&mut out, 1);
            write_u64(&mut out, s.0);
            write_transform(&mut out, t);
        },
        PlayerMsgServer::AllPlayerData(id, v) => {
            write_u32(&mut out, 2);
            write_u64(&mut out, *id);
            write_u64(&mut out, v.len() as u64);
            let ghost head = out@;
            let mut i: usize = 0;
            assert(v@.subrange(0, 0) =~= Seq::<(ServerEntity, Transform)>::empty());
            assert(out@ =~= head + enc_player_items(v@.subrange(0, 0)));
            while i < v.len()
                invariant
                    i <= v@.len(),
                    out@ == head + enc_player_items(v@.subrange(0, i as int)),
                decreases v.len() - i,
            {
                let (s, t) = v[i];
                write_u64(&mut out, s.0);
                write_transform(&mut out, &t);
                proof {
                    let pre = v@.subrange(0, i + 1);
                    assert(pre.drop_last() =~= v@.subrange(0, i as int));
                    assert(pre.last() == v@[i as int]);
                    assert(out@ =~= head + enc_player_items(pre));
                }
                i = i + 1;
            }
            assert(v@.subrange(0, i as int) =~= v@);
        },
    }
    assert(out@ =~= enc_player_server(m@));
    out
}

} // verus!
