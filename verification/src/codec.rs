//! Wire codec: the fixed envelope formats used on the request and response
//! paths.  Counts and field lengths are eight little-endian bytes; a record
//! list is wrapped as an eight-byte count followed by the concatenated
//! records.

use vstd::prelude::*;
use crate::bytes::{append_bytes, copy_range};

verus! {

/// Little-endian byte `i` of a 64-bit value.
pub open spec fn u64_le_byte(n: u64, i: int) -> u8 {
    ((n >> (8 * i)) & 0xff) as u8
}

/// The eight little-endian bytes of a 64-bit value.
pub open spec fn u64_le(n: u64) -> Seq<u8> {
    Seq::new(8, |i: int| u64_le_byte(n, i))
}

/// The 64-bit value held by eight little-endian bytes.
pub open spec fn u64_of_le8(s: Seq<u8>) -> u64
    recommends
        s.len() == 8,
{
    ((s[0] as u64) | ((s[1] as u64) << 8) | ((s[2] as u64) << 16) | ((s[3] as u64) << 24)
        | ((s[4] as u64) << 32) | ((s[5] as u64) << 40) | ((s[6] as u64) << 48) | ((s[7]
        as u64) << 56)) as u64
}

/// Decoding the eight little-endian bytes of a value gives the value back.
pub proof fn lemma_u64_le_round_trip(n: u64)
    ensures
        u64_of_le8(u64_le(n)) == n,
{
    assert(u64_le(n)[0] == u64_le_byte(n, 0));
    assert(u64_le(n)[1] == u64_le_byte(n, 1));
    assert(u64_le(n)[2] == u64_le_byte(n, 2));
    assert(u64_le(n)[3] == u64_le_byte(n, 3));
    assert(u64_le(n)[4] == u64_le_byte(n, 4));
    assert(u64_le(n)[5] == u64_le_byte(n, 5));
    assert(u64_le(n)[6] == u64_le_byte(n, 6));
    assert(u64_le(n)[7] == u64_le_byte(n, 7));
    assert(((((n >> 0) & 0xff) as u8 as u64) | ((((n >> 8) & 0xff) as u8 as u64) << 8) | ((((n
        >> 16) & 0xff) as u8 as u64) << 16) | ((((n >> 24) & 0xff) as u8 as u64) << 24) | ((((n
        >> 32) & 0xff) as u8 as u64) << 32) | ((((n >> 40) & 0xff) as u8 as u64) << 40) | ((((n
        >> 48) & 0xff) as u8 as u64) << 48) | ((((n >> 56) & 0xff) as u8 as u64) << 56)) == n)
        by (bit_vector);
}

/// Encodes a 64-bit value as eight little-endian bytes.
pub fn encode_u64_le(n: u64) -> (r: Vec<u8>)
    ensures
        r@ == u64_le(n),
{
    let mut r: Vec<u8> = Vec::new();
    let mut i: u64 = 0;
    while i < 8
        invariant
            i <= 8,
            r@.len() == i,
            forall|j: int| 0 <= j < i ==> r@[j] == u64_le_byte(n, j),
        decreases 8 - i,
    {
        let b: u8 = ((n >> (8 * i)) & 0xff) as u8;
        assert(b == u64_le_byte(n, i as int));
        r.push(b);
        i = i + 1;
    }
    assert(r@ =~= u64_le(n));
    r
}

/// Reads the 64-bit value held little-endian at `p[off..off + 8]`.
pub fn decode_u64_le_at(p: &Vec<u8>, off: usize) -> (r: u64)
    requires
        off + 8 <= p@.len(),
    ensures
        r == u64_of_le8(p@.subrange(off as int, off as int + 8)),
{
    let len = p.len();
    assert(off + 8 <= len);
    let r: u64 = (p[off] as u64) | ((p[off + 1] as u64) << 8) | ((p[off + 2] as u64) << 16) | ((p[off
        + 3] as u64) << 24) | ((p[off + 4] as u64) << 32) | ((p[off + 5] as u64) << 40) | ((p[off
        + 6] as u64) << 48) | ((p[off + 7] as u64) << 56);
    proof {
        let s = p@.subrange(off as int, off as int + 8);
        assert(s[0] == p@[off as int]);
        assert(s[1] == p@[off as int + 1]);
        assert(s[2] == p@[off as int + 2]);
        assert(s[3] == p@[off as int + 3]);
        assert(s[4] == p@[off as int + 4]);
        assert(s[5] == p@[off as int + 5]);
        assert(s[6] == p@[off as int + 6]);
        assert(s[7] == p@[off as int + 7]);
    }
    r
}

/// A length-prefixed field at offset `off`: eight little-endian length bytes,
/// then that many bytes.  Yields the field and the offset just past it;
/// trailing bytes after the field are allowed.
pub open spec fn field_spec(p: Seq<u8>, off: int) -> Option<(Seq<u8>, int)>
    recommends
        0 <= off <= p.len(),
{
    if p.len() - off < 8 {
        None
    } else {
        let n = u64_of_le8(p.subrange(off, off + 8)) as int;
        if n > p.len() - off - 8 {
            None
        } else {
            Some((p.subrange(off + 8, off + 8 + n), off + 8 + n))
        }
    }
}

/// Decodes the length-prefixed field at offset `off`.
pub fn decode_field_at(p: &Vec<u8>, off: usize) -> (r: Option<(Vec<u8>, usize)>)
    requires
        off <= p@.len(),
    ensures
        match r {
            None => field_spec(p@, off as int) is None,
            Some(pair) => field_spec(p@, off as int) == Some((pair.0@, pair.1 as int)),
        },
{
    if p.len() - off < 8 {
        return None;
    }
    let n = decode_u64_le_at(p, off);
    let rem: u64 = (p.len() - off - 8) as u64;
    if n > rem {
        return None;
    }
    let nn = n as usize;
    let f = copy_range(p, off + 8, off + 8 + nn);
    Some((f, off + 8 + nn))
}

/// The key/value request payload: a length-prefixed key, then a
/// length-prefixed value; trailing bytes are allowed.
pub open spec fn kv_spec(p: Seq<u8>) -> Option<(Seq<u8>, Seq<u8>)> {
    match field_spec(p, 0) {
        None => None,
        Some(kf) => match field_spec(p, kf.1) {
            None => None,
            Some(vf) => Some((kf.0, vf.0)),
        },
    }
}

/// Decodes a key/value request payload.
pub fn decode_kv(p: &Vec<u8>) -> (r: Option<(Vec<u8>, Vec<u8>)>)
    ensures
        match r {
            None => kv_spec(p@) is None,
            Some(kv) => kv_spec(p@) == Some((kv.0@, kv.1@)),
        },
{
    match decode_field_at(p, 0) {
        None => None,
        Some(kf) => match decode_field_at(p, kf.1) {
            None => None,
            Some(vf) => Some((kf.0, vf.0)),
        },
    }
}

/// The concatenation of a sequence of byte strings.
pub open spec fn concat_bytes(vals: Seq<Seq<u8>>) -> Seq<u8>
    decreases vals.len(),
{
    if vals.len() == 0 {
        Seq::empty()
    } else {
        concat_bytes(vals.drop_last()) + vals.last()
    }
}

/// The response envelope for a list of records: an eight-byte little-endian
/// count, then the concatenated records.
pub open spec fn envelope_spec(vals: Seq<Seq<u8>>) -> Seq<u8>
    recommends
        vals.len() <= u64::MAX,
{
    u64_le(vals.len() as u64) + concat_bytes(vals)
}

/// Builds the count-prefixed envelope over the given records.
pub fn build_envelope(vals: &Vec<Vec<u8>>) -> (r: Vec<u8>)
    ensures
        r@ == envelope_spec(vals.deep_view()),
{
    let ghost dv = vals.deep_view();
    let mut r = encode_u64_le(vals.len() as u64);
    proof {
        assert(dv.len() == vals@.len());
        assert(dv.take(0) =~= Seq::<Seq<u8>>::empty());
        assert(r@ =~= u64_le(vals@.len() as u64) + concat_bytes(dv.take(0)));
    }
    let mut i: usize = 0;
    while i < vals.len()
        invariant
            i <= vals@.len(),
            dv == vals.deep_view(),
            dv.len() == vals@.len(),
            r@ == u64_le(vals@.len() as u64) + concat_bytes(dv.take(i as int)),
        decreases vals@.len() - i,
    {
        append_bytes(&mut r, &vals[i]);
        proof {
            assert(dv.take(i + 1).drop_last() =~= dv.take(i as int));
            assert(dv.take(i + 1).last() == dv[i as int]);
            assert(dv[i as int] == vals@[i as int]@);
            assert(r@ =~= u64_le(vals@.len() as u64) + concat_bytes(dv.take(i + 1)));
        }
        i = i + 1;
    }
    proof {
        assert(dv.take(vals@.len() as int) =~= dv);
    }
    r
}

/// The count field of a response envelope, when the envelope is long enough
/// to hold one.
pub open spec fn envelope_count_spec(p: Seq<u8>) -> Option<u64> {
    if p.len() < 8 {
        None
    } else {
        Some(u64_of_le8(p.subrange(0, 8)))
    }
}

/// Reads the count field of a response envelope.
pub fn decode_envelope_count(p: &Vec<u8>) -> (r: Option<u64>)
    ensures
        match r {
            None => envelope_count_spec(p@) is None,
            Some(c) => envelope_count_spec(p@) == Some(c),
        },
{
    if p.len() < 8 {
        None
    } else {
        Some(decode_u64_le_at(p, 0))
    }
}

/// Scanning an empty namespace yields a decodable envelope: its count field
/// reads back as zero and its body is empty.
pub proof fn lemma_zero_result_envelope()
    ensures
        envelope_spec(Seq::empty()) == u64_le(0),
        envelope_spec(Seq::empty()).len() == 8,
        envelope_count_spec(envelope_spec(Seq::empty())) == Some(0u64),
{
    assert(concat_bytes(Seq::<Seq<u8>>::empty()) =~= Seq::<u8>::empty());
    assert(envelope_spec(Seq::empty()) =~= u64_le(0));
    assert(u64_le(0).len() == 8);
    let e = envelope_spec(Seq::empty());
    assert(e.subrange(0, 8) =~= u64_le(0));
    lemma_u64_le_round_trip(0);
}

} // verus!
