//! The wire format of the integers that a packet is made of.
//!
//! Everything is little-endian. Ids and ticks take two bytes, the field of
//! acknowledgements four. Counts, lengths and channel kinds are written as
//! unsigned LEB128 numbers: seven bits per byte, the low bits first, the top
//! bit of a byte saying that another byte follows. A number has one
//! encoding, the shortest, so that what was decoded encodes to the same bytes.

use vstd::prelude::*;

verus! {

/// Largest number of bytes that a LEB128 number of 32 bits takes.
pub const MAX_VARINT_LEN: usize = 5;

/// The two bytes of `v`, low byte first.
pub open spec fn le16(v: u16) -> Seq<u8> {
    seq![(v % 256) as u8, (v / 256) as u8]
}

/// The four bytes of `v`, low byte first.
pub open spec fn le32(v: u32) -> Seq<u8> {
    seq![
        (v % 256) as u8,
        ((v / 256) % 256) as u8,
        ((v / 65536) % 256) as u8,
        (v / 16777216) as u8,
    ]
}

/// The number of 16 bits at the head of `b`, and what follows it.
pub open spec fn parse_le16(b: Seq<u8>) -> Option<(u16, Seq<u8>)> {
    if b.len() < 2 {
        None
    } else {
        Some(((b[0] as int + 256 * (b[1] as int)) as u16, b.skip(2)))
    }
}

/// The number of 32 bits at the head of `b`, and what follows it.
pub open spec fn parse_le32(b: Seq<u8>) -> Option<(u32, Seq<u8>)> {
    if b.len() < 4 {
        None
    } else {
        Some(
            (
                (b[0] as int + 256 * (b[1] as int) + 65536 * (b[2] as int) + 16777216 * (
                b[3] as int)) as u32,
                b.skip(4),
            ),
        )
    }
}

/// The LEB128 encoding of `v`.
pub open spec fn varint(v: nat) -> Seq<u8>
    decreases v,
{
    if v < 128 {
        seq![v as u8]
    } else {
        seq![((v % 128) + 128) as u8] + varint(v / 128)
    }
}

/// The LEB128 number at the head of `b` if it takes `limit` bytes at most,
/// is written in the shortest way and fits 32 bits; and what follows it.
pub open spec fn parse_varint(b: Seq<u8>, limit: nat) -> Option<(nat, Seq<u8>)>
    decreases limit,
{
    if limit == 0 || b.len() == 0 {
        None
    } else if b[0] < 128 {
        Some((b[0] as nat, b.skip(1)))
    } else {
        match parse_varint(b.skip(1), (limit - 1) as nat) {
            None => None,
            Some((high, rest)) => {
                let v = (b[0] - 128) + 128 * high;
                if high == 0 || v > u32::MAX {
                    None
                } else {
                    Some((v as nat, rest))
                }
            },
        }
    }
}

/// The bytes of `v` decode to `v`.
pub proof fn lemma_le16_round_trip(v: u16, rest: Seq<u8>)
    ensures
        parse_le16(le16(v) + rest) == Some((v, rest)),
{
    assert((le16(v) + rest).skip(2) =~= rest);
}

/// What decodes to a number of 16 bits is that number's bytes.
pub proof fn lemma_le16_parsed(b: Seq<u8>)
    requires
        parse_le16(b) is Some,
    ensures
        b == le16(parse_le16(b).unwrap().0) + parse_le16(b).unwrap().1,
{
    let v = parse_le16(b).unwrap().0;
    assert(b =~= le16(v) + b.skip(2));
}

/// The bytes of `v` decode to `v`.
pub proof fn lemma_le32_round_trip(v: u32, rest: Seq<u8>)
    ensures
        parse_le32(le32(v) + rest) == Some((v, rest)),
{
    assert((le32(v) + rest).skip(4) =~= rest);
}

/// What decodes to a number of 32 bits is that number's bytes.
pub proof fn lemma_le32_parsed(b: Seq<u8>)
    requires
        parse_le32(b) is Some,
    ensures
        b == le32(parse_le32(b).unwrap().0) + parse_le32(b).unwrap().1,
{
    let v = parse_le32(b).unwrap().0;
    let b0 = b[0] as int;
    let b1 = b[1] as int;
    let b2 = b[2] as int;
    let b3 = b[3] as int;
    let y = b2 + 256 * b3;
    let x = b1 + 256 * y;
    assert(v == b0 + 256 * x);
    assert(v % 256 == b0 && v / 256 == x);
    assert(x % 256 == b1 && x / 256 == y);
    assert(y % 256 == b2 && y / 256 == b3);
    assert(v / 65536 == y);
    assert(v / 16777216 == b3);
    assert(le32(v) =~= seq![b[0], b[1], b[2], b[3]]);
    assert(b =~= le32(v) + b.skip(4));
}

/// The number of bytes that the LEB128 encoding of `v` takes.
pub open spec fn varint_len(v: nat) -> nat
    decreases v,
{
    if v < 128 {
        1
    } else {
        1 + varint_len(v / 128)
    }
}

/// The encoding of a number is as long as `varint_len` says, and that of a
/// number of 32 bits takes five bytes at most.
pub proof fn lemma_varint_len(v: nat)
    ensures
        varint(v).len() == varint_len(v),
        varint_len(v) >= 1,
        v <= u32::MAX ==> varint_len(v) <= 5,
    decreases v,
{
    if v >= 128 {
        lemma_varint_len(v / 128);
        if v <= u32::MAX {
            reveal_with_fuel(varint_len, 6);
        }
    }
}

/// The encoding of a number decodes to the number.
pub proof fn lemma_varint_round_trip(v: nat, rest: Seq<u8>, limit: nat)
    requires
        v <= u32::MAX,
        limit >= varint_len(v),
    ensures
        parse_varint(varint(v) + rest, limit) == Some((v, rest)),
    decreases v,
{
    let b = varint(v) + rest;
    if v < 128 {
        assert(b.skip(1) =~= rest);
    } else {
        assert(b.skip(1) =~= varint(v / 128) + rest);
        lemma_varint_round_trip(v / 128, rest, (limit - 1) as nat);
    }
}

/// What decodes to a number is that number's encoding.
pub proof fn lemma_varint_parsed(b: Seq<u8>, limit: nat)
    requires
        parse_varint(b, limit) is Some,
    ensures
        b == varint(parse_varint(b, limit).unwrap().0) + parse_varint(b, limit).unwrap().1,
        parse_varint(b, limit).unwrap().0 <= u32::MAX,
        parse_varint(b, limit).unwrap().1.len() < b.len(),
        varint_len(parse_varint(b, limit).unwrap().0) <= limit,
    decreases limit,
{
    if b[0] < 128 {
        assert(b =~= seq![b[0]] + b.skip(1));
    } else {
        lemma_varint_parsed(b.skip(1), (limit - 1) as nat);
        let inner = parse_varint(b.skip(1), (limit - 1) as nat).unwrap();
        let v = (b[0] - 128) + 128 * inner.0;
        assert(v / 128 == inner.0);
        assert(v % 128 == b[0] - 128);
        assert(b =~= seq![b[0]] + b.skip(1));
        assert(b =~= (seq![b[0]] + varint(inner.0)) + inner.1);
    }
}

/// Appends the two bytes of `v`.
pub fn put_le16(out: &mut Vec<u8>, v: u16)
    ensures
        final(out)@ == old(out)@ + le16(v),
{
    out.push((v % 256) as u8);
    out.push((v / 256) as u8);
    assert(out@ =~= old(out)@ + le16(v));
}

/// Appends the four bytes of `v`.
pub fn put_le32(out: &mut Vec<u8>, v: u32)
    ensures
        final(out)@ == old(out)@ + le32(v),
{
    out.push((v % 256) as u8);
    out.push(((v / 256) % 256) as u8);
    out.push(((v / 65536) % 256) as u8);
    out.push((v / 16777216) as u8);
    assert(out@ =~= old(out)@ + le32(v));
}

/// Appends the LEB128 encoding of `v`.
pub fn put_varint(out: &mut Vec<u8>, v: u32)
    ensures
        final(out)@ == old(out)@ + varint(v as nat),
{
    let mut left: u32 = v;
    while left >= 128
        invariant
            out@ + varint(left as nat) == old(out)@ + varint(v as nat),
        decreases left,
    {
        let ghost before = out@;
        out.push(((left % 128) + 128) as u8);
        proof {
            assert(before.push(((left % 128) + 128) as u8) + varint((left / 128) as nat) =~= before
                + varint(left as nat));
        }
        left = left / 128;
    }
    let ghost before = out@;
    out.push(left as u8);
    assert(before.push(left as u8) =~= before + varint(left as nat));
}

/// Reads the number of 16 bits at the place `pos` of `bytes`, and tells the
/// place after it.
pub fn get_le16(bytes: &Vec<u8>, pos: usize) -> (r: Option<(u16, usize)>)
    requires
        pos <= bytes.len(),
    ensures
        match r {
            Some((v, next)) => next == pos + 2 && next <= bytes.len() && parse_le16(
                bytes@.skip(pos as int),
            ) == Some((v, bytes@.skip(next as int))),
            None => parse_le16(bytes@.skip(pos as int)) is None,
        },
{
    if bytes.len() - pos < 2 {
        return None;
    }
    let low = bytes[pos] as u16;
    let high = bytes[pos + 1] as u16;
    proof {
        assert(bytes@.skip(pos as int).skip(2) =~= bytes@.skip(pos as int + 2));
    }
    Some((low + 256 * high, pos + 2))
}

/// Reads the number of 32 bits at the place `pos` of `bytes`, and tells the
/// place after it.
pub fn get_le32(bytes: &Vec<u8>, pos: usize) -> (r: Option<(u32, usize)>)
    requires
        pos <= bytes.len(),
    ensures
        match r {
            Some((v, next)) => next == pos + 4 && next <= bytes.len() && parse_le32(
                bytes@.skip(pos as int),
            ) == Some((v, bytes@.skip(next as int))),
            None => parse_le32(bytes@.skip(pos as int)) is None,
        },
{
    if bytes.len() - pos < 4 {
        return None;
    }
    let b0 = bytes[pos] as u32;
    let b1 = bytes[pos + 1] as u32;
    let b2 = bytes[pos + 2] as u32;
    let b3 = bytes[pos + 3] as u32;
    proof {
        assert(bytes@.skip(pos as int).skip(4) =~= bytes@.skip(pos as int + 4));
    }
    Some((b0 + 256 * b1 + 65536 * b2 + 16777216 * b3, pos + 4))
}

/// Reads the LEB128 number at the place `pos` of `bytes` if it takes `limit`
/// bytes at most, and tells the place after it.
pub fn get_varint(bytes: &Vec<u8>, pos: usize, limit: usize) -> (r: Option<(u32, usize)>)
    requires
        pos <= bytes.len(),
    ensures
        match r {
            Some((v, next)) => pos < next <= bytes.len() && parse_varint(
                bytes@.skip(pos as int),
                limit as nat,
            ) == Some((v as nat, bytes@.skip(next as int))),
            None => parse_varint(bytes@.skip(pos as int), limit as nat) is None,
        },
    decreases limit,
{
    if limit == 0 || pos >= bytes.len() {
        return None;
    }
    let first = bytes[pos];
    proof {
        assert(bytes@.skip(pos as int)[0] == first);
        assert(bytes@.skip(pos as int).skip(1) =~= bytes@.skip(pos as int + 1));
    }
    if first < 128 {
        return Some((first as u32, pos + 1));
    }
    match get_varint(bytes, pos + 1, limit - 1) {
        None => None,
        Some((high, next)) => {
            let v: u64 = (first as u64 - 128) + 128 * (high as u64);
            if high == 0 || v > 0xffff_ffff {
                None
            } else {
                Some((v as u32, next))
            }
        },
    }
}

} // verus!
