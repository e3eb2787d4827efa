//! The consensus encoding: fixed-width big-endian integers, length-prefixed
//! byte strings, and the readers that invert them.
use vstd::prelude::*;

verus! {

pub open spec fn be_u16(x: u16) -> Seq<u8> {
    seq![(x >> 8u16) as u8, x as u8]
}

pub open spec fn be_u64(x: u64) -> Seq<u8> {
    seq![
        (x >> 56u64) as u8,
        (x >> 48u64) as u8,
        (x >> 40u64) as u8,
        (x >> 32u64) as u8,
        (x >> 24u64) as u8,
        (x >> 16u64) as u8,
        (x >> 8u64) as u8,
        x as u8,
    ]
}

pub open spec fn u16_of_be(b: Seq<u8>) -> u16 {
    ((b[0] as u16) << 8u16) | (b[1] as u16)
}

pub open spec fn u64_of_be(b: Seq<u8>) -> u64 {
    ((b[0] as u64) << 56u64) | ((b[1] as u64) << 48u64) | ((b[2] as u64) << 40u64) | ((b[3] as u64)
        << 32u64) | ((b[4] as u64) << 24u64) | ((b[5] as u64) << 16u64) | ((b[6] as u64) << 8u64)
        | (b[7] as u64)
}

/// A byte string preceded by its length.
pub open spec fn enc_bytes(b: Seq<u8>) -> Seq<u8> {
    be_u64(b.len() as u64) + b
}

pub proof fn lemma_u16_round_trip(x: u16)
    ensures
        u16_of_be(be_u16(x)) == x,
{
    let b0 = (x >> 8u16) as u8;
    let b1 = x as u8;
    assert((((b0 as u16) << 8u16) | (b1 as u16)) == x) by (bit_vector)
        requires
            b0 == (x >> 8u16) as u8,
            b1 == x as u8,
    ;
}

pub proof fn lemma_u64_round_trip(x: u64)
    ensures
        u64_of_be(be_u64(x)) == x,
{
    let b = be_u64(x);
    let (b0, b1, b2, b3, b4, b5, b6, b7) = (b[0], b[1], b[2], b[3], b[4], b[5], b[6], b[7]);
    assert(((b0 as u64) << 56u64) | ((b1 as u64) << 48u64) | ((b2 as u64) << 40u64) | ((b3 as u64)
        << 32u64) | ((b4 as u64) << 24u64) | ((b5 as u64) << 16u64) | ((b6 as u64) << 8u64) | (b7 as u64)
        == x) by (bit_vector)
        requires
            b0 == (x >> 56u64) as u8,
            b1 == (x >> 48u64) as u8,
            b2 == (x >> 40u64) as u8,
            b3 == (x >> 32u64) as u8,
            b4 == (x >> 24u64) as u8,
            b5 == (x >> 16u64) as u8,
            b6 == (x >> 8u64) as u8,
            b7 == x as u8,
    ;
}

pub fn put_u16(buf: &mut Vec<u8>, x: u16)
    ensures
        final(buf)@ == old(buf)@ + be_u16(x),
{
    buf.push((x >> 8u16) as u8);
    buf.push(x as u8);
    assert(buf@ =~= old(buf)@ + be_u16(x));
}

pub fn put_u64(buf: &mut Vec<u8>, x: u64)
    ensures
        final(buf)@ == old(buf)@ + be_u64(x),
{
    buf.push((x >> 56u64) as u8);
    buf.push((x >> 48u64) as u8);
    buf.push((x >> 40u64) as u8);
    buf.push((x >> 32u64) as u8);
    buf.push((x >> 24u64) as u8);
    buf.push((x >> 16u64) as u8);
    buf.push((x >> 8u64) as u8);
    buf.push(x as u8);
    assert(buf@ =~= old(buf)@ + be_u64(x));
}

pub fn put_raw(buf: &mut Vec<u8>, b: &[u8])
    ensures
        final(buf)@ == old(buf)@ + b@,
{
    let mut i: usize = 0;
    while i < b.len()
        invariant
            i <= b@.len(),
            buf@ == old(buf)@ + b@.take(i as int),
        decreases b@.len() - i,
    {
        buf.push(b[i]);
        i += 1;
        assert(buf@ =~= old(buf)@ + b@.take(i as int));
    }
    assert(b@.take(b@.len() as int) =~= b@);
}

pub fn put_bytes(buf: &mut Vec<u8>, b: &[u8])
    ensures
        final(buf)@ == old(buf)@ + enc_bytes(b@),
{
    put_u64(buf, b.len() as u64);
    put_raw(buf, b);
    assert(buf@ =~= old(buf)@ + enc_bytes(b@));
}

/// Reads a `u16` at `pos`.
pub fn read_u16(b: &[u8], pos: usize) -> (r: Option<u16>)
    ensures
        r.is_some() <==> pos + 2 <= b@.len(),
        r.is_some() ==> r.unwrap() == u16_of_be(b@.subrange(pos as int, pos + 2)),
{
    if pos <= b.len() && 2 <= b.len() - pos {
        let b0 = b[pos];
        let b1 = b[pos + 1];
        let x: u16 = ((b0 as u16) << 8u16) | (b1 as u16);
        Some(x)
    } else {
        None
    }
}

/// Reads a `u64` at `pos`.
pub fn read_u64(b: &[u8], pos: usize) -> (r: Option<u64>)
    ensures
        r.is_some() <==> pos + 8 <= b@.len(),
        r.is_some() ==> r.unwrap() == u64_of_be(b@.subrange(pos as int, pos + 8)),
{
    if pos <= b.len() && 8 <= b.len() - pos {
        let x: u64 = ((b[pos] as u64) << 56u64) | ((b[pos + 1] as u64) << 48u64) | ((b[pos + 2] as u64)
            << 40u64) | ((b[pos + 3] as u64) << 32u64) | ((b[pos + 4] as u64) << 24u64) | ((b[pos
            + 5] as u64) << 16u64) | ((b[pos + 6] as u64) << 8u64) | (b[pos + 7] as u64);
        Some(x)
    } else {
        None
    }
}

/// Reads a length-prefixed byte string at `pos`; returns it and the
/// position after it.
pub fn read_bytes(b: &[u8], pos: usize) -> (r: Option<(Vec<u8>, usize)>)
    ensures
        r is Some <==> parse_bytes(b@, pos as int) is Some,
        r is Some ==> r.unwrap().0@ == parse_bytes(b@, pos as int).unwrap().0 && r.unwrap().1
            == parse_bytes(b@, pos as int).unwrap().1,
{
    if pos > b.len() || b.len() - pos < 8 {
        return None;
    }
    let n = match read_u64(b, pos) {
        Some(n) => n,
        None => {
            return None;
        },
    };
    let start = pos + 8;
    if n > (b.len() - start) as u64 {
        return None;
    }
    let n = n as usize;
    let mut out: Vec<u8> = Vec::with_capacity(n);
    let mut i: usize = 0;
    while i < n
        invariant
            start + n <= b@.len(),
            b@.len() <= usize::MAX,
            i <= n,
            out@ == b@.subrange(start as int, start + i),
        decreases n - i,
    {
        out.push(b[start + i]);
        i += 1;
        assert(out@ =~= b@.subrange(start as int, start + i));
    }
    Some((out, start + n))
}

/// What `read_bytes` finds at `pos`: the string and the position after it.
pub open spec fn parse_bytes(b: Seq<u8>, pos: int) -> Option<(Seq<u8>, int)> {
    if 0 <= pos && pos + 8 <= b.len() {
        let n = u64_of_be(b.subrange(pos, pos + 8));
        if pos + 8 + n <= b.len() && n <= usize::MAX {
            Some((b.subrange(pos + 8, pos + 8 + n), pos + 8 + n))
        } else {
            None
        }
    } else {
        None
    }
}

/// A length-prefixed string reads back as itself, whatever follows it.
pub proof fn lemma_bytes_round_trip(pre: Seq<u8>, x: Seq<u8>, rest: Seq<u8>)
    requires
        x.len() <= usize::MAX,
    ensures
        parse_bytes(pre + enc_bytes(x) + rest, pre.len() as int) == Some(
            (x, (pre.len() + 8 + x.len()) as int),
        ),
{
    let b = pre + enc_bytes(x) + rest;
    let p = pre.len() as int;
    assert(b.subrange(p, p + 8) =~= be_u64(x.len() as u64));
    lemma_u64_round_trip(x.len() as u64);
    assert(b.subrange(p + 8, p + 8 + x.len()) =~= x);
}

} // verus!
