//! The wire layout of messages.
//!
//! Integers are little-endian: tags and `f32` bit patterns in four bytes,
//! entity handles, client ids and lengths in eight. A list or a byte blob is
//! its length followed by its elements.
use vstd::prelude::*;

verus! {

/// The four little-endian bytes of `x`.
pub open spec fn le32(x: u32) -> Seq<u8> {
    seq![
        (x & 0xff) as u8,
        ((x >> 8u32) & 0xff) as u8,
        ((x >> 16u32) & 0xff) as u8,
        ((x >> 24u32) & 0xff) as u8,
    ]
}

/// The eight little-endian bytes of `x`.
pub open spec fn le64(x: u64) -> Seq<u8> {
    seq![
        (x & 0xff) as u8,
        ((x >> 8u64) & 0xff) as u8,
        ((x >> 16u64) & 0xff) as u8,
        ((x >> 24u64) & 0xff) as u8,
        ((x >> 32u64) & 0xff) as u8,
        ((x >> 40u64) & 0xff) as u8,
        ((x >> 48u64) & 0xff) as u8,
        ((x >> 56u64) & 0xff) as u8,
    ]
}

/// The words of `ws`, four little-endian bytes each.
pub open spec fn le_words(ws: Seq<u32>) -> Seq<u8>
    decreases ws.len(),
{
    if ws.len() == 0 {
        Seq::empty()
    } else {
        le_words(ws.drop_last()) + le32(ws.last())
    }
}

/// `e` stands in `b` from `pos` on.
pub open spec fn at(b: Seq<u8>, pos: int, e: Seq<u8>) -> bool {
    0 <= pos && pos + e.len() <= b.len() && b.subrange(pos, pos + e.len()) == e
}

pub proof fn lemma_at_concat(b: Seq<u8>, pos: int, x: Seq<u8>, y: Seq<u8>)
    ensures
        at(b, pos, x + y) <==> (at(b, pos, x) && at(b, pos + x.len(), y)),
{
    if at(b, pos, x + y) {
        let s = b.subrange(pos, pos + x.len() + y.len());
        assert(s == x + y);
        assert forall|i: int| 0 <= i < x.len() implies b.subrange(pos, pos + x.len())[i] == x[i] by {
            assert(s[i] == (x + y)[i]);
        }
        assert forall|i: int| 0 <= i < y.len() implies b.subrange(
            pos + x.len(),
            pos + x.len() + y.len(),
        )[i] == y[i] by {
            assert(s[x.len() + i] == (x + y)[x.len() + i]);
        }
        assert(b.subrange(pos, pos + x.len()) =~= x);
        assert(b.subrange(pos + x.len(), pos + x.len() + y.len()) =~= y);
    }
    if at(b, pos, x) && at(b, pos + x.len(), y) {
        assert(b.subrange(pos, pos + (x + y).len()) =~= x + y);
    }
}

pub proof fn lemma_at_same(b: Seq<u8>, pos: int, x: Seq<u8>, y: Seq<u8>)
    requires
        at(b, pos, x),
        at(b, pos, y),
        x.len() == y.len(),
    ensures
        x == y,
{
}

pub proof fn lemma_le32_injective(x: u32, y: u32)
    requires
        le32(x) == le32(y),
    ensures
        x == y,
{
    assert(le32(x)[0] == le32(y)[0] && le32(x)[1] == le32(y)[1]);
    assert(le32(x)[2] == le32(y)[2] && le32(x)[3] == le32(y)[3]);
    assert(x == y) by (bit_vector)
        requires
            (x & 0xff) as u8 == (y & 0xff) as u8,
            ((x >> 8u32) & 0xff) as u8 == ((y >> 8u32) & 0xff) as u8,
            ((x >> 16u32) & 0xff) as u8 == ((y >> 16u32) & 0xff) as u8,
            ((x >> 24u32) & 0xff) as u8 == ((y >> 24u32) & 0xff) as u8,
    ;
}

pub proof fn lemma_le64_injective(x: u64, y: u64)
    requires
        le64(x) == le64(y),
    ensures
        x == y,
{
    assert(le64(x)[0] == le64(y)[0] && le64(x)[1] == le64(y)[1]);
    assert(le64(x)[2] == le64(y)[2] && le64(x)[3] == le64(y)[3]);
    assert(le64(x)[4] == le64(y)[4] && le64(x)[5] == le64(y)[5]);
    assert(le64(x)[6] == le64(y)[6] && le64(x)[7] == le64(y)[7]);
    assert(x == y) by (bit_vector)
        requires
            (x & 0xff) as u8 == (y & 0xff) as u8,
            ((x >> 8u64) & 0xff) as u8 == ((y >> 8u64) & 0xff) as u8,
            ((x >> 16u64) & 0xff) as u8 == ((y >> 16u64) & 0xff) as u8,
            ((x >> 24u64) & 0xff) as u8 == ((y >> 24u64) & 0xff) as u8,
            ((x >> 32u64) & 0xff) as u8 == ((y >> 32u64) & 0xff) as u8,
            ((x >> 40u64) & 0xff) as u8 == ((y >> 40u64) & 0xff) as u8,
            ((x >> 48u64) & 0xff) as u8 == ((y >> 48u64) & 0xff) as u8,
            ((x >> 56u64) & 0xff) as u8 == ((y >> 56u64) & 0xff) as u8,
    ;
}

pub proof fn lemma_le_words_len(ws: Seq<u32>)
    ensures
        le_words(ws).len() == 4 * ws.len(),
    decreases ws.len(),
{
    if ws.len() > 0 {
        lemma_le_words_len(ws.drop_last());
    }
}

pub proof fn lemma_le_words_injective(a: Seq<u32>, b: Seq<u32>)
    requires
        le_words(a) == le_words(b),
        a.len() == b.len(),
    ensures
        a == b,
    decreases a.len(),
{
    if a.len() > 0 {
        let (x, y) = (le_words(a.drop_last()), le_words(b.drop_last()));
        lemma_le_words_len(a.drop_last());
        lemma_le_words_len(b.drop_last());
        assert(x =~= le_words(a).subrange(0, x.len() as int));
        assert(y =~= le_words(b).subrange(0, y.len() as int));
        assert(le32(a.last()) =~= le_words(a).subrange(x.len() as int, x.len() + 4int));
        assert(le32(b.last()) =~= le_words(b).subrange(y.len() as int, y.len() + 4int));
        lemma_le_words_injective(a.drop_last(), b.drop_last());
        lemma_le32_injective(a.last(), b.last());
        assert(a =~= a.drop_last().push(a.last()));
        assert(b =~= b.drop_last().push(b.last()));
    }
}

/// Appends the little-endian bytes of `x`.
pub fn write_u32(out: &mut Vec<u8>, x: u32)
    ensures
        final(out)@ == old(out)@ + le32(x),
{
    out.push((x & 0xff) as u8);
    out.push(((x >> 8u32) & 0xff) as u8);
    out.push(((x >> 16u32) & 0xff) as u8);
    out.push(((x >> 24u32) & 0xff) as u8);
    assert(out@ =~= old(out)@ + le32(x));
}

/// Appends the little-endian bytes of `x`.
pub fn write_u64(out: &mut Vec<u8>, x: u64)
    ensures
        final(out)@ == old(out)@ + le64(x),
{
    out.push((x & 0xff) as u8);
    out.push(((x >> 8u64) & 0xff) as u8);
    out.push(((x >> 16u64) & 0xff) as u8);
    out.push(((x >> 24u64) & 0xff) as u8);
    out.push(((x >> 32u64) & 0xff) as u8);
    out.push(((x >> 40u64) & 0xff) as u8);
    out.push(((x >> 48u64) & 0xff) as u8);
    out.push(((x >> 56u64) & 0xff) as u8);
    assert(out@ =~= old(out)@ + le64(x));
}

/// Appends each word of `ws`.
pub fn write_words(out: &mut Vec<u8>, ws: &[u32])
    ensures
        final(out)@ == old(out)@ + le_words(ws@),
{
    let mut i: usize = 0;
    while i < ws.len()
        invariant
            i <= ws@.len(),
            out@ == old(out)@ + le_words(ws@.subrange(0, i as int)),
        decreases ws.len() - i,
    {
        write_u32(out, ws[i]);
        proof {
            let s = ws@.subrange(0, i + 1);
            assert(s.drop_last() =~= ws@.subrange(0, i as int));
        }
        i = i + 1;
    }
    assert(ws@.subrange(0, i as int) =~= ws@);
}

/// Reads the word at `pos`.
pub fn read_u32(b: &[u8], pos: usize) -> (r: Option<u32>)
    requires
        pos <= b@.len(),
    ensures
        match r {
            Some(x) => at(b@, pos as int, le32(x)),
            None => pos + 4 > b@.len(),
        },
{
    if b.len() - pos < 4 {
        return None;
    }
    let (b0, b1, b2, b3) = (b[pos], b[pos + 1], b[pos + 2], b[pos + 3]);
    let x: u32 = (b0 as u32) | ((b1 as u32) << 8u32) | ((b2 as u32) << 16u32) | ((b3 as u32) << 24u32);
    assert(
        (x & 0xff) as u8 == b0 && ((x >> 8u32) & 0xff) as u8 == b1
        && ((x >> 16u32) & 0xff) as u8 == b2 && ((x >> 24u32) & 0xff) as u8 == b3
    ) by (bit_vector)
        requires
            x == (b0 as u32) | ((b1 as u32) << 8u32) | ((b2 as u32) << 16u32) | ((b3 as u32) << 24u32),
    ;
    assert(b@.subrange(pos as int, pos + 4) =~= le32(x));
    Some(x)
}

/// Reads the eight-byte integer at `pos`.
pub fn read_u64(b: &[u8], pos: usize) -> (r: Option<u64>)
    requires
        pos <= b@.len(),
    ensures
        match r {
            Some(x) => at(b@, pos as int, le64(x)),
            None => pos + 8 > b@.len(),
        },
{
    if b.len() - pos < 8 {
        return None;
    }
    let (b0, b1, b2, b3) = (b[pos], b[pos + 1], b[pos + 2], b[pos + 3]);
    let (b4, b5, b6, b7) = (b[pos + 4], b[pos + 5], b[pos + 6], b[pos + 7]);
    let x: u64 = (b0 as u64) | ((b1 as u64) << 8u64) | ((b2 as u64) << 16u64) | ((b3 as u64) << 24u64)
        | ((b4 as u64) << 32u64) | ((b5 as u64) << 40u64) | ((b6 as u64) << 48u64) | ((b7 as u64)
        << 56u64);
    assert(
        (x & 0xff) as u8 == b0 && ((x >> 8u64) & 0xff) as u8 == b1
        && ((x >> 16u64) & 0xff) as u8 == b2 && ((x >> 24u64) & 0xff) as u8 == b3
        && ((x >> 32u64) & 0xff) as u8 == b4 && ((x >> 40u64) & 0xff) as u8 == b5
        && ((x >> 48u64) & 0xff) as u8 == b6 && ((x >> 56u64) & 0xff) as u8 == b7
    ) by (bit_vector)
        requires
            x == (b0 as u64) | ((b1 as u64) << 8u64) | ((b2 as u64) << 16u64) | ((b3 as u64) << 24u64)
                | ((b4 as u64) << 32u64) | ((b5 as u64) << 40u64) | ((b6 as u64) << 48u64) | ((
            b7 as u64) << 56u64),
    ;
    assert(b@.subrange(pos as int, pos + 8) =~= le64(x));
    Some(x)
}

/// Reads `n` words from `pos` on.
pub fn read_words(b: &[u8], pos: usize, n: usize) -> (r: Option<Vec<u32>>)
    requires
        pos <= b@.len(),
    ensures
        match r {
            Some(ws) => ws@.len() == n && at(b@, pos as int, le_words(ws@)),
            None => pos + 4 * n > b@.len(),
        },
{
    let mut ws: Vec<u32> = Vec::new();
    let mut p: usize = pos;
    let mut i: usize = 0;
    assert(le_words(ws@) =~= Seq::<u8>::empty());
    assert(b@.subrange(pos as int, pos as int) =~= Seq::<u8>::empty());
    while i < n
        invariant
            i <= n,
            pos <= p <= b@.len(),
            p == pos + 4 * i,
            ws@.len() == i,
            at(b@, pos as int, le_words(ws@)),
        decreases n - i,
    {
        match read_u32(b, p) {
            Some(x) => {
                assert(le32(x).len() == 4);
                assert(at(b@, p as int, le32(x)));
                assert(p + 4 <= b@.len());
                assert(b@.len() == b.len());
                proof {
                    lemma_le_words_len(ws@);
                    assert(ws@.push(x).drop_last() =~= ws@);
                    lemma_at_concat(b@, pos as int, le_words(ws@), le32(x));
                }
                ws.push(x);
                p = p + 4;
                i = i + 1;
            },
            None => {
                return None;
            },
        }
    }
    Some(ws)
}

/// Reads the `n` bytes from `pos` on.
pub fn read_bytes(b: &[u8], pos: usize, n: u64) -> (r: Option<Vec<u8>>)
    requires
        pos <= b@.len(),
    ensures
        match r {
            Some(v) => v@.len() == n && at(b@, pos as int, v@),
            None => pos + n > b@.len(),
        },
{
    if ((b.len() - pos) as u64) < n {
        return None;
    }
    let end: usize = pos + n as usize;
    let mut v: Vec<u8> = Vec::new();
    let mut i: usize = pos;
    while i < end
        invariant
            pos <= i <= end <= b@.len(),
            v@ == b@.subrange(pos as int, i as int),
        decreases end - i,
    {
        v.push(b[i]);
        assert(v@ =~= b@.subrange(pos as int, i + 1));
        i = i + 1;
    }
    Some(v)
}

} // verus!
