//! Canonical binary serialization primitives.
//!
//! Every composite object of the library is serialized by concatenating
//! fixed-width big-endian integers, single-byte booleans, raw 32-byte
//! identifiers and length-prefixed byte strings. For each primitive there is
//! an encoding spec (`enc_*`), a deterministic parsing spec (`p_*`), an
//! executable writer and parser tied to them, and a lemma pinning each
//! parser to its encoder: parsing an encoding placed at any position yields
//! exactly the encoded value.

use vstd::prelude::*;

use crate::ids::{id_bytes, id_from_bytes, lemma_id_bytes_roundtrip, lemma_u64_be_roundtrip,
    push_u64_be, u64_be, u64_from_be, Id};

verus! {

// ---------------------------------------------------------------- encodings

/// A boolean as a single canonical byte: 1 for true, 0 for false.
pub open spec fn enc_bool(b: bool) -> Seq<u8> {
    seq![if b { 1u8 } else { 0u8 }]
}

/// A single raw byte.
pub open spec fn enc_u8(v: u8) -> Seq<u8> {
    seq![v]
}

/// A 16-bit integer, big-endian.
pub open spec fn enc_u16(v: u16) -> Seq<u8> {
    seq![(v >> 8) as u8, v as u8]
}

/// A 32-bit integer, big-endian.
pub open spec fn enc_u32(v: u32) -> Seq<u8> {
    seq![(v >> 24) as u8, (v >> 16) as u8, (v >> 8) as u8, v as u8]
}

/// A 64-bit integer, big-endian.
pub open spec fn enc_u64(v: u64) -> Seq<u8> {
    u64_be(v)
}

/// A 128-bit integer as two big-endian 64-bit words, high first.
pub open spec fn enc_u128(v: u128) -> Seq<u8> {
    u64_be((v >> 64) as u64) + u64_be(v as u64)
}

/// An identifier as its raw 32 bytes.
pub open spec fn enc_id(id: Id) -> Seq<u8> {
    id_bytes(id)
}

/// A byte string, prefixed by its 64-bit length.
pub open spec fn enc_bytes(s: Seq<u8>) -> Seq<u8> {
    enc_u64(s.len() as u64) + s
}

// ------------------------------------------------------------ parsing specs

/// Parses a canonical boolean at `i`; bytes other than 0 and 1 are rejected.
pub open spec fn p_bool(s: Seq<u8>, i: int) -> Option<(bool, int)> {
    if 0 <= i && i + 1 <= s.len() {
        if s[i] == 1u8 {
            Some((true, i + 1))
        } else if s[i] == 0u8 {
            Some((false, i + 1))
        } else {
            None
        }
    } else {
        None
    }
}

pub open spec fn p_u8(s: Seq<u8>, i: int) -> Option<(u8, int)> {
    if 0 <= i && i + 1 <= s.len() {
        Some((s[i], i + 1))
    } else {
        None
    }
}

pub open spec fn p_u16(s: Seq<u8>, i: int) -> Option<(u16, int)> {
    if 0 <= i && i + 2 <= s.len() {
        Some(((((s[i] as u16) << 8) | (s[i + 1] as u16)) as u16, i + 2))
    } else {
        None
    }
}

pub open spec fn p_u32(s: Seq<u8>, i: int) -> Option<(u32, int)> {
    if 0 <= i && i + 4 <= s.len() {
        Some(((((s[i] as u32) << 24) | ((s[i + 1] as u32) << 16) | ((s[i + 2] as u32) << 8)
            | (s[i + 3] as u32)) as u32, i + 4))
    } else {
        None
    }
}

pub open spec fn p_u64(s: Seq<u8>, i: int) -> Option<(u64, int)> {
    if 0 <= i && i + 8 <= s.len() {
        Some((u64_from_be(s.subrange(i, i + 8)), i + 8))
    } else {
        None
    }
}

pub open spec fn p_u128(s: Seq<u8>, i: int) -> Option<(u128, int)> {
    if 0 <= i && i + 16 <= s.len() {
        Some(((((u64_from_be(s.subrange(i, i + 8)) as u128) << 64)
            | (u64_from_be(s.subrange(i + 8, i + 16)) as u128)) as u128, i + 16))
    } else {
        None
    }
}

pub open spec fn p_id(s: Seq<u8>, i: int) -> Option<(Id, int)> {
    if 0 <= i && i + 32 <= s.len() {
        Some((id_from_bytes(s.subrange(i, i + 32)), i + 32))
    } else {
        None
    }
}

pub open spec fn p_bytes(s: Seq<u8>, i: int) -> Option<(Seq<u8>, int)> {
    match p_u64(s, i) {
        Some((n, j)) => if j + n <= s.len() {
            Some((s.subrange(j, j + n), j + n))
        } else {
            None
        },
        None => None,
    }
}

// ------------------------------------------------------- round-trip lemmas

/// Whenever the encoding of a value sits at position `i` of a larger stream,
/// parsing at `i` returns that value and stops right after it.
pub proof fn lemma_p_bool_enc(s: Seq<u8>, i: int, b: bool)
    requires
        0 <= i,
        i + enc_bool(b).len() <= s.len(),
        s.subrange(i, i + enc_bool(b).len()) == enc_bool(b),
    ensures
        p_bool(s, i) == Some((b, i + enc_bool(b).len())),
{
    assert(s[i] == enc_bool(b)[0]);
}

pub proof fn lemma_p_u8_enc(s: Seq<u8>, i: int, v: u8)
    requires
        0 <= i,
        i + enc_u8(v).len() <= s.len(),
        s.subrange(i, i + enc_u8(v).len()) == enc_u8(v),
    ensures
        p_u8(s, i) == Some((v, i + enc_u8(v).len())),
{
    assert(s[i] == enc_u8(v)[0]);
}

pub proof fn lemma_p_u16_enc(s: Seq<u8>, i: int, v: u16)
    requires
        0 <= i,
        i + enc_u16(v).len() <= s.len(),
        s.subrange(i, i + enc_u16(v).len()) == enc_u16(v),
    ensures
        p_u16(s, i) == Some((v, i + enc_u16(v).len())),
{
    assert(s[i] == enc_u16(v)[0]);
    assert(s[i + 1] == enc_u16(v)[1]);
    let b0 = (v >> 8) as u8;
    let b1 = v as u8;
    assert((((b0 as u16) << 8) | (b1 as u16)) == v) by (bit_vector)
        requires
            b0 == (v >> 8) as u8,
            b1 == v as u8,
    ;
}

pub proof fn lemma_p_u32_enc(s: Seq<u8>, i: int, v: u32)
    requires
        0 <= i,
        i + enc_u32(v).len() <= s.len(),
        s.subrange(i, i + enc_u32(v).len()) == enc_u32(v),
    ensures
        p_u32(s, i) == Some((v, i + enc_u32(v).len())),
{
    assert(s[i] == enc_u32(v)[0]);
    assert(s[i + 1] == enc_u32(v)[1]);
    assert(s[i + 2] == enc_u32(v)[2]);
    assert(s[i + 3] == enc_u32(v)[3]);
    let b0 = (v >> 24) as u8;
    let b1 = (v >> 16) as u8;
    let b2 = (v >> 8) as u8;
    let b3 = v as u8;
    assert((((b0 as u32) << 24) | ((b1 as u32) << 16) | ((b2 as u32) << 8) | (b3 as u32)) == v)
        by (bit_vector)
        requires
            b0 == (v >> 24) as u8,
            b1 == (v >> 16) as u8,
            b2 == (v >> 8) as u8,
            b3 == v as u8,
    ;
}

pub proof fn lemma_p_u64_enc(s: Seq<u8>, i: int, v: u64)
    requires
        0 <= i,
        i + enc_u64(v).len() <= s.len(),
        s.subrange(i, i + enc_u64(v).len()) == enc_u64(v),
    ensures
        p_u64(s, i) == Some((v, i + enc_u64(v).len())),
{
    assert(s.subrange(i, i + 8) =~= enc_u64(v));
    lemma_u64_be_roundtrip(v);
}

pub proof fn lemma_p_u128_enc(s: Seq<u8>, i: int, v: u128)
    requires
        0 <= i,
        i + enc_u128(v).len() <= s.len(),
        s.subrange(i, i + enc_u128(v).len()) == enc_u128(v),
    ensures
        p_u128(s, i) == Some((v, i + enc_u128(v).len())),
{
    let hi = (v >> 64) as u64;
    let lo = v as u64;
    assert(s.subrange(i, i + 8) =~= u64_be(hi)) by {
        assert forall|k: int| 0 <= k < 8 implies s.subrange(i, i + 8)[k] == u64_be(hi)[k] by {
            assert(s[i + k] == enc_u128(v)[k]);
        }
    }
    assert(s.subrange(i + 8, i + 16) =~= u64_be(lo)) by {
        assert forall|k: int| 0 <= k < 8 implies s.subrange(i + 8, i + 16)[k] == u64_be(lo)[k] by {
            assert(s[i + 8 + k] == enc_u128(v)[8 + k]);
        }
    }
    lemma_u64_be_roundtrip(hi);
    lemma_u64_be_roundtrip(lo);
    assert((((hi as u128) << 64) | (lo as u128)) == v) by (bit_vector)
        requires
            hi == (v >> 64) as u64,
            lo == v as u64,
    ;
}

pub proof fn lemma_p_id_enc(s: Seq<u8>, i: int, id: Id)
    requires
        0 <= i,
        i + enc_id(id).len() <= s.len(),
        s.subrange(i, i + enc_id(id).len()) == enc_id(id),
    ensures
        p_id(s, i) == Some((id, i + enc_id(id).len())),
{
    assert(s.subrange(i, i + 32) =~= id_bytes(id));
    lemma_id_bytes_roundtrip(id);
}

pub proof fn lemma_p_bytes_enc(s: Seq<u8>, i: int, v: Seq<u8>)
    requires
        0 <= i,
        v.len() <= u64::MAX,
        i + enc_bytes(v).len() <= s.len(),
        s.subrange(i, i + enc_bytes(v).len()) == enc_bytes(v),
    ensures
        p_bytes(s, i) == Some((v, i + enc_bytes(v).len())),
{
    let n = v.len() as u64;
    assert(s.subrange(i, i + 8) =~= enc_u64(n)) by {
        assert forall|k: int| 0 <= k < 8 implies s.subrange(i, i + 8)[k] == enc_u64(n)[k] by {
            assert(s[i + k] == enc_bytes(v)[k]);
        }
    }
    lemma_p_u64_enc(s, i, n);
    assert(s.subrange(i + 8, i + 8 + n as int) =~= v) by {
        assert forall|k: int| 0 <= k < v.len() implies s.subrange(i + 8, i + 8 + n as int)[k]
            == v[k] by {
            assert(s[i + 8 + k] == enc_bytes(v)[8 + k]);
        }
    }
}

// ----------------------------------------------------------- inverse lemmas

/// Re-encoding a parsed value reproduces the consumed bytes.
pub proof fn lemma_p_u16_inverse(s: Seq<u8>, i: int)
    requires
        0 <= i,
        i + 2 <= s.len(),
    ensures
        p_u16(s, i) matches Some((v, p)) && enc_u16(v) == s.subrange(i, i + 2)
            && p == i + 2,
{
    let b0 = s[i];
    let b1 = s[i + 1];
    let v = (((b0 as u16) << 8) | (b1 as u16)) as u16;
    assert((v >> 8) as u8 == b0 && v as u8 == b1) by (bit_vector)
        requires
            v == (((b0 as u16) << 8) | (b1 as u16)) as u16,
    ;
    assert(enc_u16(v) =~= s.subrange(i, i + 2));
}

pub proof fn lemma_p_u32_inverse(s: Seq<u8>, i: int)
    requires
        0 <= i,
        i + 4 <= s.len(),
    ensures
        p_u32(s, i) matches Some((v, p)) && enc_u32(v) == s.subrange(i, i + 4)
            && p == i + 4,
{
    let b0 = s[i];
    let b1 = s[i + 1];
    let b2 = s[i + 2];
    let b3 = s[i + 3];
    let v = ((((s[i] as u32) << 24) | ((s[i + 1] as u32) << 16) | ((s[i + 2] as u32) << 8)
        | (s[i + 3] as u32)) as u32);
    assert((v >> 24) as u8 == b0 && (v >> 16) as u8 == b1 && (v >> 8) as u8 == b2
        && v as u8 == b3) by (bit_vector)
        requires
            v == ((((b0 as u32) << 24) | ((b1 as u32) << 16) | ((b2 as u32) << 8)
                | (b3 as u32)) as u32),
    ;
    assert(enc_u32(v) =~= s.subrange(i, i + 4));
}

pub proof fn lemma_p_u64_inverse(s: Seq<u8>, i: int)
    requires
        0 <= i,
        i + 8 <= s.len(),
    ensures
        p_u64(s, i) matches Some((v, p)) && enc_u64(v) == s.subrange(i, i + 8)
            && p == i + 8,
{
    crate::ids::lemma_u64_be_inverse(s.subrange(i, i + 8));
}

pub proof fn lemma_p_u128_inverse(s: Seq<u8>, i: int)
    requires
        0 <= i,
        i + 16 <= s.len(),
    ensures
        p_u128(s, i) matches Some((v, p)) && enc_u128(v) == s.subrange(i, i + 16)
            && p == i + 16,
{
    let hi = u64_from_be(s.subrange(i, i + 8));
    let lo = u64_from_be(s.subrange(i + 8, i + 16));
    let v = ((((hi as u128) << 64) | (lo as u128)) as u128);
    assert((v >> 64) as u64 == hi && v as u64 == lo) by (bit_vector)
        requires
            v == ((((hi as u128) << 64) | (lo as u128)) as u128),
    ;
    crate::ids::lemma_u64_be_inverse(s.subrange(i, i + 8));
    crate::ids::lemma_u64_be_inverse(s.subrange(i + 8, i + 16));
    assert(enc_u128(v) =~= s.subrange(i, i + 16));
}

pub proof fn lemma_p_id_inverse(s: Seq<u8>, i: int)
    requires
        0 <= i,
        i + 32 <= s.len(),
    ensures
        p_id(s, i) matches Some((v, p)) && enc_id(v) == s.subrange(i, i + 32)
            && p == i + 32,
{
    crate::ids::lemma_id_bytes_inverse(s.subrange(i, i + 32));
}

pub proof fn lemma_p_bool_inverse(s: Seq<u8>, i: int)
    requires
        0 <= i,
        p_bool(s, i) is Some,
    ensures
        p_bool(s, i) matches Some((v, p)) && enc_bool(v) == s.subrange(i, i + 1)
            && p == i + 1,
{
    assert(enc_bool(p_bool(s, i)->Some_0.0) =~= s.subrange(i, i + 1));
}

pub proof fn lemma_p_u8_inverse(s: Seq<u8>, i: int)
    requires
        0 <= i,
        i + 1 <= s.len(),
    ensures
        p_u8(s, i) matches Some((v, p)) && enc_u8(v) == s.subrange(i, i + 1) && p == i + 1,
{
    assert(enc_u8(s[i]) =~= s.subrange(i, i + 1));
}

pub proof fn lemma_p_bytes_inverse(s: Seq<u8>, i: int)
    requires
        0 <= i,
        p_bytes(s, i) is Some,
    ensures
        p_bytes(s, i) matches Some((v, p)) && enc_bytes(v) == s.subrange(i, p) && i <= p
            <= s.len(),
{
    let (n, j) = p_u64(s, i)->Some_0;
    lemma_p_u64_inverse(s, i);
    let v = s.subrange(j, j + n);
    assert(enc_bytes(v) =~= s.subrange(i, j + n));
}

// --------------------------------------------------------------- exec write

pub fn push_bool(buf: &mut Vec<u8>, b: bool)
    ensures
        final(buf)@ == old(buf)@ + enc_bool(b),
{
    buf.push(if b { 1u8 } else { 0u8 });
    proof {
        assert(buf@ =~= old(buf)@ + enc_bool(b));
    }
}

pub fn push_u8(buf: &mut Vec<u8>, v: u8)
    ensures
        final(buf)@ == old(buf)@ + enc_u8(v),
{
    buf.push(v);
    proof {
        assert(buf@ =~= old(buf)@ + enc_u8(v));
    }
}

pub fn push_u16(buf: &mut Vec<u8>, v: u16)
    ensures
        final(buf)@ == old(buf)@ + enc_u16(v),
{
    buf.push((v >> 8) as u8);
    buf.push(v as u8);
    proof {
        assert(buf@ =~= old(buf)@ + enc_u16(v));
    }
}

pub fn push_u32(buf: &mut Vec<u8>, v: u32)
    ensures
        final(buf)@ == old(buf)@ + enc_u32(v),
{
    buf.push((v >> 24) as u8);
    buf.push((v >> 16) as u8);
    buf.push((v >> 8) as u8);
    buf.push(v as u8);
    proof {
        assert(buf@ =~= old(buf)@ + enc_u32(v));
    }
}

pub fn push_u64(buf: &mut Vec<u8>, v: u64)
    ensures
        final(buf)@ == old(buf)@ + enc_u64(v),
{
    push_u64_be(buf, v);
}

pub fn push_u128(buf: &mut Vec<u8>, v: u128)
    ensures
        final(buf)@ == old(buf)@ + enc_u128(v),
{
    push_u64_be(buf, (v >> 64) as u64);
    push_u64_be(buf, v as u64);
    proof {
        assert(buf@ =~= old(buf)@ + enc_u128(v));
    }
}

pub fn push_id(buf: &mut Vec<u8>, id: &Id)
    ensures
        final(buf)@ == old(buf)@ + enc_id(*id),
{
    id.write_bytes(buf);
}

pub fn push_bytes(buf: &mut Vec<u8>, v: &Vec<u8>)
    ensures
        final(buf)@ == old(buf)@ + enc_bytes(v@),
{
    push_u64_be(buf, v.len() as u64);
    let mut k: usize = 0;
    while k < v.len()
        invariant
            k <= v.len(),
            buf@ == old(buf)@ + enc_u64(v@.len() as u64) + v@.subrange(0, k as int),
        decreases v.len() - k,
    {
        let b = v[k];
        buf.push(b);
        proof {
            assert(buf@ =~= old(buf)@ + enc_u64(v@.len() as u64)
                + v@.subrange(0, k as int + 1));
        }
        k += 1;
    }
    proof {
        assert(v@.subrange(0, v@.len() as int) =~= v@);
        assert(buf@ =~= old(buf)@ + enc_bytes(v@));
    }
}

// --------------------------------------------------------------- exec parse

pub fn parse_bool(s: &Vec<u8>, pos: usize) -> (r: Option<(bool, usize)>)
    ensures
        p_bool(s@, pos as int) == match r {
            Some((v, p)) => Some((v, p as int)),
            None => None::<(bool, int)>,
        },
{
    if pos < s.len() {
        let b = s[pos];
        if b == 1 {
            Some((true, pos + 1))
        } else if b == 0 {
            Some((false, pos + 1))
        } else {
            None
        }
    } else {
        None
    }
}

pub fn parse_u8(s: &Vec<u8>, pos: usize) -> (r: Option<(u8, usize)>)
    ensures
        p_u8(s@, pos as int) == match r {
            Some((v, p)) => Some((v, p as int)),
            None => None::<(u8, int)>,
        },
{
    if pos < s.len() {
        Some((s[pos], pos + 1))
    } else {
        None
    }
}

pub fn parse_u16(s: &Vec<u8>, pos: usize) -> (r: Option<(u16, usize)>)
    ensures
        p_u16(s@, pos as int) == match r {
            Some((v, p)) => Some((v, p as int)),
            None => None::<(u16, int)>,
        },
{
    if s.len() >= 2 && pos <= s.len() - 2 {
        Some(((((s[pos] as u16) << 8) | (s[pos + 1] as u16)), pos + 2))
    } else {
        None
    }
}

pub fn parse_u32(s: &Vec<u8>, pos: usize) -> (r: Option<(u32, usize)>)
    ensures
        p_u32(s@, pos as int) == match r {
            Some((v, p)) => Some((v, p as int)),
            None => None::<(u32, int)>,
        },
{
    if s.len() >= 4 && pos <= s.len() - 4 {
        Some((((s[pos] as u32) << 24) | ((s[pos + 1] as u32) << 16)
            | ((s[pos + 2] as u32) << 8) | (s[pos + 3] as u32), pos + 4))
    } else {
        None
    }
}

pub fn parse_u64(s: &Vec<u8>, pos: usize) -> (r: Option<(u64, usize)>)
    ensures
        p_u64(s@, pos as int) == match r {
            Some((v, p)) => Some((v, p as int)),
            None => None::<(u64, int)>,
        },
{
    if s.len() >= 8 && pos <= s.len() - 8 {
        let v: u64 = ((s[pos] as u64) << 56) | ((s[pos + 1] as u64) << 48)
            | ((s[pos + 2] as u64) << 40) | ((s[pos + 3] as u64) << 32)
            | ((s[pos + 4] as u64) << 24) | ((s[pos + 5] as u64) << 16)
            | ((s[pos + 6] as u64) << 8) | (s[pos + 7] as u64);
        proof {
            let sub = s@.subrange(pos as int, pos as int + 8);
            assert(sub[0] == s@[pos as int]);
            assert(sub[1] == s@[pos as int + 1]);
            assert(sub[2] == s@[pos as int + 2]);
            assert(sub[3] == s@[pos as int + 3]);
            assert(sub[4] == s@[pos as int + 4]);
            assert(sub[5] == s@[pos as int + 5]);
            assert(sub[6] == s@[pos as int + 6]);
            assert(sub[7] == s@[pos as int + 7]);
        }
        Some((v, pos + 8))
    } else {
        None
    }
}

pub fn parse_u128(s: &Vec<u8>, pos: usize) -> (r: Option<(u128, usize)>)
    ensures
        p_u128(s@, pos as int) == match r {
            Some((v, p)) => Some((v, p as int)),
            None => None::<(u128, int)>,
        },
{
    if s.len() >= 16 && pos <= s.len() - 16 {
        let hi = match parse_u64(s, pos) {
            Some((v, _)) => v,
            None => 0,
        };
        let lo = match parse_u64(s, pos + 8) {
            Some((v, _)) => v,
            None => 0,
        };
        Some((((hi as u128) << 64) | (lo as u128), pos + 16))
    } else {
        None
    }
}

pub fn parse_id(s: &Vec<u8>, pos: usize) -> (r: Option<(Id, usize)>)
    ensures
        p_id(s@, pos as int) == match r {
            Some((v, p)) => Some((v, p as int)),
            None => None::<(Id, int)>,
        },
{
    if s.len() >= 32 && pos <= s.len() - 32 {
        let w0 = match parse_u64(s, pos) {
            Some((v, _)) => v,
            None => 0,
        };
        let w1 = match parse_u64(s, pos + 8) {
            Some((v, _)) => v,
            None => 0,
        };
        let w2 = match parse_u64(s, pos + 16) {
            Some((v, _)) => v,
            None => 0,
        };
        let w3 = match parse_u64(s, pos + 24) {
            Some((v, _)) => v,
            None => 0,
        };
        proof {
            let sub = s@.subrange(pos as int, pos as int + 32);
            assert(sub.subrange(0, 8) =~= s@.subrange(pos as int, pos as int + 8));
            assert(sub.subrange(8, 16) =~= s@.subrange(pos as int + 8, pos as int + 16));
            assert(sub.subrange(16, 24) =~= s@.subrange(pos as int + 16, pos as int + 24));
            assert(sub.subrange(24, 32) =~= s@.subrange(pos as int + 24, pos as int + 32));
        }
        Some((Id { w0, w1, w2, w3 }, pos + 32))
    } else {
        None
    }
}

pub fn parse_bytes(s: &Vec<u8>, pos: usize) -> (r: Option<(Vec<u8>, usize)>)
    ensures
        match (r, p_bytes(s@, pos as int)) {
            (Some((v, p)), Some((v2, p2))) => v@ == v2 && p as int == p2,
            (None, None) => true,
            _ => false,
        },
{
    match parse_u64(s, pos) {
        Some((n, j)) => {
            if n <= (s.len() - j) as u64 {
                let end: usize = j + (n as usize);
                let mut v: Vec<u8> = Vec::new();
                let mut k: usize = j;
                while k < end
                    invariant
                        j <= k <= end,
                        end <= s@.len(),
                        v@ == s@.subrange(j as int, k as int),
                    decreases end - k,
                {
                    let b = s[k];
                    v.push(b);
                    proof {
                        assert(v@ =~= s@.subrange(j as int, k as int + 1));
                    }
                    k += 1;
                }
                Some((v, end))
            } else {
                None
            }
        },
        None => None,
    }
}

} // verus!
