//! 32-byte content identifiers used throughout the library.
//!
//! Every content-addressed object (consignment, contract, schema, bundle,
//! operation, witness, seal) is identified by a 32-byte digest, held here as
//! four big-endian 64-bit words so that equality and ordering are plain
//! word-wise operations.

use vstd::prelude::*;

verus! {

/// A 32-byte identifier, stored as four big-endian 64-bit words: the word
/// `w0` covers bytes 0..8 of the digest, `w3` bytes 24..32.
#[derive(Clone, Copy, PartialEq, Eq, Structural, Hash, Debug)]
pub struct Id {
    pub w0: u64,
    pub w1: u64,
    pub w2: u64,
    pub w3: u64,
}

/// Content-address of a whole consignment.
pub type ConsignmentId = Id;
/// Identifier of a contract, derived from its genesis.
pub type ContractId = Id;
/// Identifier of a validation schema.
pub type SchemaId = Id;
/// Identifier of a transition bundle.
pub type BundleId = Id;
/// Identifier of an operation (genesis, transition or extension).
pub type OpId = Id;
/// Identifier of a public witness.
pub type WitnessId = Id;
/// A concealed ("secret") seal: the commitment to a revealed seal.
pub type SecretSeal = Id;

/// The big-endian byte decomposition of a 64-bit word.
pub open spec fn u64_be(w: u64) -> Seq<u8> {
    seq![
        (w >> 56) as u8,
        (w >> 48) as u8,
        (w >> 40) as u8,
        (w >> 32) as u8,
        (w >> 24) as u8,
        (w >> 16) as u8,
        (w >> 8) as u8,
        w as u8,
    ]
}

/// The 64-bit word read big-endian from the first eight bytes of `s`.
pub open spec fn u64_from_be(s: Seq<u8>) -> u64
    recommends
        s.len() >= 8,
{
    (((s[0] as u64) << 56) | ((s[1] as u64) << 48) | ((s[2] as u64) << 40)
        | ((s[3] as u64) << 32) | ((s[4] as u64) << 24) | ((s[5] as u64) << 16)
        | ((s[6] as u64) << 8) | (s[7] as u64)) as u64
}

pub proof fn lemma_u64_be_roundtrip(w: u64)
    ensures
        u64_from_be(u64_be(w)) == w,
{
    let b0 = (w >> 56) as u8;
    let b1 = (w >> 48) as u8;
    let b2 = (w >> 40) as u8;
    let b3 = (w >> 32) as u8;
    let b4 = (w >> 24) as u8;
    let b5 = (w >> 16) as u8;
    let b6 = (w >> 8) as u8;
    let b7 = w as u8;
    assert((((b0 as u64) << 56) | ((b1 as u64) << 48) | ((b2 as u64) << 40)
        | ((b3 as u64) << 32) | ((b4 as u64) << 24) | ((b5 as u64) << 16)
        | ((b6 as u64) << 8) | (b7 as u64)) == w) by (bit_vector)
        requires
            b0 == (w >> 56) as u8,
            b1 == (w >> 48) as u8,
            b2 == (w >> 40) as u8,
            b3 == (w >> 32) as u8,
            b4 == (w >> 24) as u8,
            b5 == (w >> 16) as u8,
            b6 == (w >> 8) as u8,
            b7 == w as u8,
    ;
}


/// Recomposing eight bytes big-endian and decomposing again is the identity.
pub proof fn lemma_u64_be_inverse(s: Seq<u8>)
    requires
        s.len() == 8,
    ensures
        u64_be(u64_from_be(s)) == s,
{
    let b0 = s[0];
    let b1 = s[1];
    let b2 = s[2];
    let b3 = s[3];
    let b4 = s[4];
    let b5 = s[5];
    let b6 = s[6];
    let b7 = s[7];
    let w = u64_from_be(s);
    assert((w >> 56) as u8 == b0 && (w >> 48) as u8 == b1 && (w >> 40) as u8 == b2
        && (w >> 32) as u8 == b3 && (w >> 24) as u8 == b4 && (w >> 16) as u8 == b5
        && (w >> 8) as u8 == b6 && w as u8 == b7) by (bit_vector)
        requires
            w == (((b0 as u64) << 56) | ((b1 as u64) << 48) | ((b2 as u64) << 40)
                | ((b3 as u64) << 32) | ((b4 as u64) << 24) | ((b5 as u64) << 16)
                | ((b6 as u64) << 8) | (b7 as u64)) as u64,
    ;
    assert(u64_be(w) =~= s);
}

/// Serializing a freshly unpacked identifier gives back the 32 bytes.
pub proof fn lemma_id_bytes_inverse(s: Seq<u8>)
    requires
        s.len() == 32,
    ensures
        id_bytes(id_from_bytes(s)) == s,
{
    lemma_u64_be_inverse(s.subrange(0, 8));
    lemma_u64_be_inverse(s.subrange(8, 16));
    lemma_u64_be_inverse(s.subrange(16, 24));
    lemma_u64_be_inverse(s.subrange(24, 32));
    assert(id_bytes(id_from_bytes(s)) =~= s);
}

/// The 32-byte big-endian serialization of an identifier.
pub open spec fn id_bytes(id: Id) -> Seq<u8> {
    u64_be(id.w0) + u64_be(id.w1) + u64_be(id.w2) + u64_be(id.w3)
}

pub proof fn lemma_id_bytes_len(id: Id)
    ensures
        id_bytes(id).len() == 32,
{
}

/// The identifier read from the first 32 bytes of `s`.
pub open spec fn id_from_bytes(s: Seq<u8>) -> Id
    recommends
        s.len() >= 32,
{
    Id {
        w0: u64_from_be(s.subrange(0, 8)),
        w1: u64_from_be(s.subrange(8, 16)),
        w2: u64_from_be(s.subrange(16, 24)),
        w3: u64_from_be(s.subrange(24, 32)),
    }
}

pub proof fn lemma_id_bytes_roundtrip(id: Id)
    ensures
        id_from_bytes(id_bytes(id)) == id,
{
    let s = id_bytes(id);
    assert(s.subrange(0, 8) =~= u64_be(id.w0));
    assert(s.subrange(8, 16) =~= u64_be(id.w1));
    assert(s.subrange(16, 24) =~= u64_be(id.w2));
    assert(s.subrange(24, 32) =~= u64_be(id.w3));
    lemma_u64_be_roundtrip(id.w0);
    lemma_u64_be_roundtrip(id.w1);
    lemma_u64_be_roundtrip(id.w2);
    lemma_u64_be_roundtrip(id.w3);
}

impl Id {
    /// Strict lexicographic order on the 32-byte form, expressed word-wise.
    pub open spec fn lt_spec(self, other: Self) -> bool {
        ||| self.w0 < other.w0
        ||| (self.w0 == other.w0 && self.w1 < other.w1)
        ||| (self.w0 == other.w0 && self.w1 == other.w1 && self.w2 < other.w2)
        ||| (self.w0 == other.w0 && self.w1 == other.w1 && self.w2 == other.w2
            && self.w3 < other.w3)
    }

    /// Three-way strict comparison backing the ordered-map invariants.
    pub fn lt(&self, other: &Self) -> (r: bool)
        ensures
            r == self.lt_spec(*other),
    {
        if self.w0 != other.w0 {
            self.w0 < other.w0
        } else if self.w1 != other.w1 {
            self.w1 < other.w1
        } else if self.w2 != other.w2 {
            self.w2 < other.w2
        } else {
            self.w3 < other.w3
        }
    }

    /// Builds an identifier from a 32-byte array (a raw digest).
    pub fn from_array(b: [u8; 32]) -> (r: Id)
        ensures
            r == id_from_bytes(b@),
    {
        let w0 = word_from_bytes(&b, 0);
        let w1 = word_from_bytes(&b, 8);
        let w2 = word_from_bytes(&b, 16);
        let w3 = word_from_bytes(&b, 24);
        proof {
            assert(b@.subrange(0, 8) =~= b@.subrange(0, 8));
        }
        Id { w0, w1, w2, w3 }
    }

    /// Appends the 32-byte big-endian serialization of `self` to `buf`.
    pub fn write_bytes(&self, buf: &mut Vec<u8>)
        ensures
            final(buf)@ == old(buf)@ + id_bytes(*self),
    {
        push_u64_be(buf, self.w0);
        push_u64_be(buf, self.w1);
        push_u64_be(buf, self.w2);
        push_u64_be(buf, self.w3);
        proof {
            assert(buf@ =~= old(buf)@ + id_bytes(*self));
        }
    }
}

/// Reads the big-endian word at byte offset `off` of a 32-byte array.
fn word_from_bytes(b: &[u8; 32], off: usize) -> (r: u64)
    requires
        off + 8 <= 32,
    ensures
        r == u64_from_be(b@.subrange(off as int, off as int + 8)),
{
    let s = Ghost(b@.subrange(off as int, off as int + 8));
    let r: u64 = ((b[off] as u64) << 56) | ((b[off + 1] as u64) << 48)
        | ((b[off + 2] as u64) << 40) | ((b[off + 3] as u64) << 32)
        | ((b[off + 4] as u64) << 24) | ((b[off + 5] as u64) << 16)
        | ((b[off + 6] as u64) << 8) | (b[off + 7] as u64);
    proof {
        assert(s@[0] == b@[off as int]);
        assert(s@[1] == b@[off as int + 1]);
        assert(s@[2] == b@[off as int + 2]);
        assert(s@[3] == b@[off as int + 3]);
        assert(s@[4] == b@[off as int + 4]);
        assert(s@[5] == b@[off as int + 5]);
        assert(s@[6] == b@[off as int + 6]);
        assert(s@[7] == b@[off as int + 7]);
    }
    r
}

/// Appends the big-endian serialization of `w` to `buf`.
pub fn push_u64_be(buf: &mut Vec<u8>, w: u64)
    ensures
        final(buf)@ == old(buf)@ + u64_be(w),
{
    buf.push((w >> 56) as u8);
    buf.push((w >> 48) as u8);
    buf.push((w >> 40) as u8);
    buf.push((w >> 32) as u8);
    buf.push((w >> 24) as u8);
    buf.push((w >> 16) as u8);
    buf.push((w >> 8) as u8);
    buf.push(w as u8);
    proof {
        assert(buf@ =~= old(buf)@ + u64_be(w));
    }
}

} // verus!
