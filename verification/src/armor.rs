//! The armored text format: a consignment as printable bytes with a header
//! block carrying the consignment identifier, the declared type and an
//! integrity checksum of the body, followed by the hex-encoded canonical
//! body.
//!
//! Decoding rejects any input whose recomputed identifier, body checksum or
//! declared type disagrees with its header: the identifier a successful
//! decode returns is always the one the header carries, which is how the
//! round trip keeps identity.

use vstd::prelude::*;

use crate::ids::{id_bytes, id_from_bytes, lemma_id_bytes_roundtrip, Id};
use crate::codec::{enc_bool, enc_bytes, enc_id, enc_u16, enc_u32, enc_u64, enc_u128, enc_u8,
    lemma_p_bool_enc, lemma_p_bytes_enc, lemma_p_id_enc, lemma_p_u128_enc, lemma_p_u16_enc,
    lemma_p_u32_enc, lemma_p_u64_enc, lemma_p_u8_enc, parse_bool, parse_bytes, parse_id,
    parse_u128, parse_u16, parse_u32, parse_u64, parse_u8, push_bool, push_bytes, push_id,
    push_u64, push_u8};
use crate::model::{enc_assignment, enc_bundle, enc_bundled_witness, enc_each, enc_extension,
    enc_genesis, enc_graph_seal, enc_iface_pair, enc_list, enc_opout, enc_pub_witness,
    enc_seal, enc_state, enc_supplement, enc_script_lib, enc_transition, lemma_enc_each_push,
    write_bundled_witness, write_extension, write_genesis, write_iface_pair, Assignment,
    Bundle, BundledWitness, Extension, Genesis, GraphSeal, Iface, IfaceImpl, IfacePair,
    Opout, PersistedState, PubWitness, Schema, ScriptLib, Seal, Supplement, Transition,
    TypeSystem};
use crate::commit::{contract_id_spec, digest_id, digest_id_spec, schema_id_spec,
    TAG_CHECKSUM};
use crate::consignment::{keys_sorted, same_assignment, same_blob_entry, same_bundle,
    same_bw, same_content, same_iface_pair, same_transition, Consignment, MAX_ATTACHMENTS,
    MAX_IFACES, MAX_SCRIPT_LIBS, MAX_SIGNATURES, MAX_SUPPLEMENTS, MAX_TERMINALS};

verus! {

// ---------------------------------------------------------------------- hex

/// The lowercase hex digit of a nibble.
pub open spec fn hexchar(n: u8) -> u8 {
    if n < 10 {
        (48 + n) as u8
    } else {
        (87 + n) as u8
    }
}

/// The lowercase hex spelling of a byte string.
pub open spec fn hex_of(s: Seq<u8>) -> Seq<u8>
    decreases s.len(),
{
    if s.len() == 0 {
        Seq::empty()
    } else {
        seq![hexchar(s[0] / 16), hexchar(s[0] % 16)] + hex_of(s.drop_first())
    }
}

/// The nibble a hex digit denotes, if it is one.
pub open spec fn unhex_nibble(c: u8) -> Option<u8> {
    if 48 <= c <= 57 {
        Some((c - 48) as u8)
    } else if 97 <= c <= 102 {
        Some((c - 87) as u8)
    } else {
        None
    }
}

/// The byte string a hex string denotes, if every digit is one.
pub open spec fn unhex_bytes(s: Seq<u8>) -> Option<Seq<u8>>
    decreases s.len(),
{
    if s.len() == 0 {
        Some(Seq::empty())
    } else if s.len() == 1 {
        None
    } else {
        match (unhex_nibble(s[0]), unhex_nibble(s[1])) {
            (Some(hi), Some(lo)) => match unhex_bytes(s.subrange(2, s.len() as int)) {
                Some(rest) => Some(seq![(hi * 16 + lo) as u8] + rest),
                None => None,
            },
            _ => None,
        }
    }
}

pub proof fn lemma_hex_of_len(s: Seq<u8>)
    ensures
        hex_of(s).len() == 2 * s.len(),
    decreases s.len(),
{
    if s.len() > 0 {
        lemma_hex_of_len(s.drop_first());
    }
}

pub proof fn lemma_hex_of_push(s: Seq<u8>, x: u8)
    ensures
        hex_of(s.push(x)) == hex_of(s) + seq![hexchar(x / 16), hexchar(x % 16)],
    decreases s.len(),
{
    if s.len() == 0 {
        assert(s.push(x)[0] == x);
        assert(s.push(x).drop_first() =~= Seq::<u8>::empty());
        assert(hex_of(s.push(x)) == seq![hexchar(x / 16), hexchar(x % 16)]
            + hex_of(Seq::<u8>::empty()));
        assert(hex_of(Seq::<u8>::empty()) == Seq::<u8>::empty());
        assert(hex_of(s) == Seq::<u8>::empty());
        assert(hex_of(s.push(x)) =~= hex_of(s) + seq![hexchar(x / 16), hexchar(x % 16)]);
    } else {
        assert(s.push(x).drop_first() =~= s.drop_first().push(x));
        lemma_hex_of_push(s.drop_first(), x);
        assert(s.push(x)[0] == s[0]);
        assert(hex_of(s.push(x)) == seq![hexchar(s[0] / 16), hexchar(s[0] % 16)] + (hex_of(
            s.drop_first()) + seq![hexchar(x / 16), hexchar(x % 16)]));
        assert(hex_of(s) == seq![hexchar(s[0] / 16), hexchar(s[0] % 16)] + hex_of(
            s.drop_first()));
        assert(hex_of(s.push(x)) =~= hex_of(s) + seq![hexchar(x / 16), hexchar(x % 16)]);
    }
}

/// Hex decoding undoes hex encoding.
pub proof fn lemma_unhex_hex(s: Seq<u8>)
    ensures
        unhex_bytes(hex_of(s)) == Some(s),
    decreases s.len(),
{
    if s.len() == 0 {
    } else {
        lemma_unhex_hex(s.drop_first());
        let h = hex_of(s);
        assert(h[0] == hexchar(s[0] / 16));
        assert(h[1] == hexchar(s[0] % 16));
        assert(unhex_nibble(hexchar(s[0] / 16)) == Some((s[0] / 16) as u8));
        assert(unhex_nibble(hexchar(s[0] % 16)) == Some((s[0] % 16) as u8));
        assert(h.subrange(2, h.len() as int) =~= hex_of(s.drop_first()));
        assert((s[0] / 16) * 16 + (s[0] % 16) == s[0]);
        assert(seq![s[0]] + s.drop_first() =~= s);
    }
}

/// The identifier spelled in hex at a fixed position, if the 64 characters
/// there are hex digits.
pub open spec fn unhex_id_at(s: Seq<u8>, off: int) -> Option<Id> {
    if 0 <= off && off + 64 <= s.len() {
        match unhex_bytes(s.subrange(off, off + 64)) {
            Some(b) => Some(id_from_bytes(b)),
            None => None,
        }
    } else {
        None
    }
}

/// Appends the hex spelling of a byte string.
fn push_hex(buf: &mut Vec<u8>, v: &Vec<u8>)
    ensures
        final(buf)@ == old(buf)@ + hex_of(v@),
{
    let mut k: usize = 0;
    while k < v.len()
        invariant
            k <= v@.len(),
            buf@ == old(buf)@ + hex_of(v@.subrange(0, k as int)),
        decreases v.len() - k,
    {
        let b = v[k];
        buf.push(48 + b / 16 + if b / 16 >= 10 { 39 } else { 0 });
        buf.push(48 + b % 16 + if b % 16 >= 10 { 39 } else { 0 });
        proof {
            lemma_hex_of_push(v@.subrange(0, k as int), v@[k as int]);
            assert(v@.subrange(0, k as int).push(v@[k as int])
                =~= v@.subrange(0, k as int + 1));
            assert(buf@ =~= old(buf)@ + hex_of(v@.subrange(0, k as int + 1)));
        }
        k += 1;
    }
    proof {
        assert(v@.subrange(0, v@.len() as int) =~= v@);
    }
}

/// Decodes the hex region `[start, end)`; fails exactly where it is not
/// well-formed hex.
fn parse_hex_region(s: &Vec<u8>, start: usize, end: usize) -> (r: Option<Vec<u8>>)
    requires
        start <= end <= s@.len(),
    ensures
        match r {
            Some(v) => unhex_bytes(s@.subrange(start as int, end as int)) == Some(v@),
            None => unhex_bytes(s@.subrange(start as int, end as int)) is None,
        },
{
    let mut out: Vec<u8> = Vec::new();
    let mut pos: usize = start;
    while pos < end
        invariant
            start <= pos <= end <= s@.len(),
            unhex_bytes(s@.subrange(start as int, end as int)) == match unhex_bytes(
                s@.subrange(pos as int, end as int)) {
                Some(rest) => Some(out@ + rest),
                None => None::<Seq<u8>>,
            },
        decreases end - pos,
    {
        let ghost rest0 = s@.subrange(pos as int, end as int);
        if pos + 1 >= end {
            proof {
                assert(rest0.len() == 1);
            }
            return None;
        }
        let c0 = s[pos];
        let c1 = s[pos + 1];
        let hi = if 48 <= c0 && c0 <= 57 {
            (c0 - 48) as u8
        } else if 97 <= c0 && c0 <= 102 {
            (c0 - 87) as u8
        } else {
            proof {
                assert(rest0[0] == c0);
            }
            return None;
        };
        let lo = if 48 <= c1 && c1 <= 57 {
            (c1 - 48) as u8
        } else if 97 <= c1 && c1 <= 102 {
            (c1 - 87) as u8
        } else {
            proof {
                assert(rest0[0] == c0);
                assert(rest0[1] == c1);
            }
            return None;
        };
        let ghost out0 = out@;
        out.push(hi * 16 + lo);
        proof {
            assert(rest0[0] == c0);
            assert(rest0[1] == c1);
            assert(rest0.subrange(2, rest0.len() as int)
                =~= s@.subrange(pos as int + 2, end as int));
            assert(unhex_nibble(c0) == Some(hi));
            assert(unhex_nibble(c1) == Some(lo));
            if unhex_bytes(s@.subrange(pos as int + 2, end as int)) is Some {
                let rest = unhex_bytes(s@.subrange(pos as int + 2, end as int))->Some_0;
                assert(unhex_bytes(rest0) == Some(seq![(hi * 16 + lo) as u8] + rest));
                assert(out@ + rest =~= out0 + (seq![(hi * 16 + lo) as u8] + rest));
            }
        }
        pos += 2;
    }
    proof {
        assert(s@.subrange(end as int, end as int) =~= Seq::<u8>::empty());
    }
    Some(out)
}

/// Matches a fixed literal at a position: true exactly when the literal
/// stands there in full.
fn expect_lit<const N: usize>(s: &Vec<u8>, pos: usize, lit: &[u8; N]) -> (r: bool)
    ensures
        r == (pos + N <= s@.len() && s@.subrange(pos as int, pos as int + N) == lit@),
{
    if pos > s.len() || N > s.len() - pos {
        return false;
    }
    let mut k: usize = 0;
    while k < N
        invariant
            k <= N,
            pos + N <= s.len(),
            forall|j: int| 0 <= j < k ==> s@[pos + j] == lit@[j],
        decreases N - k,
    {
        let idx: usize = pos + k;
        if s[idx] != lit[k] {
            proof {
                assert(s@.subrange(pos as int, pos as int + N)[k as int] == s@[pos + k]);
            }
            return false;
        }
        k += 1;
    }
    proof {
        assert(s@.subrange(pos as int, pos as int + N) =~= lit@);
    }
    true
}

/// Decoded hex is half as long as its spelling.
pub proof fn lemma_unhex_len(s: Seq<u8>)
    ensures
        unhex_bytes(s) is Some ==> 2 * (unhex_bytes(s)->Some_0).len() == s.len(),
    decreases s.len(),
{
    if s.len() >= 2 {
        lemma_unhex_len(s.subrange(2, s.len() as int));
    }
}

/// Splitting a known suffix: when everything from position `i` on reads
/// `a + b`, the next `a.len()` bytes are exactly `a` and the suffix after
/// them is exactly `b`.
pub proof fn lemma_suffix_prefix(s: Seq<u8>, i: int, a: Seq<u8>, b: Seq<u8>)
    requires
        0 <= i <= s.len(),
        s.skip(i) == a + b,
    ensures
        i + a.len() <= s.len(),
        s.subrange(i, i + a.len()) == a,
        s.skip(i + a.len()) == b,
{
    assert(s.skip(i).len() == a.len() + b.len());
    assert(s.subrange(i, i + a.len()) =~= a) by {
        assert forall|j: int| 0 <= j < a.len() implies s.subrange(i, i + a.len())[j] == a[j]
            by {
            assert(s.subrange(i, i + a.len())[j] == s[i + j]);
            assert(s.skip(i)[j] == s[i + j]);
            assert(s.skip(i)[j] == (a + b)[j]);
        }
    }
    assert(s.skip(i + a.len()) =~= b) by {
        assert forall|j: int| 0 <= j < b.len() implies s.skip(i + a.len())[j] == b[j] by {
            assert(s.skip(i + a.len())[j] == s[i + a.len() + j]);
            assert(s.skip(i)[a.len() + j] == s[i + a.len() + j]);
            assert(s.skip(i)[a.len() + j] == (a + b)[a.len() + j]);
        }
    }
}

// The fixed pieces of the armored plate and header lines.
pub open spec fn lit_begin() -> Seq<u8> {
    seq![45u8, 45, 45, 45, 45, 66, 69, 71, 73, 78, 32, 82, 71, 66, 32, 67, 79, 78, 83, 73, 71, 78, 77, 69, 78, 84, 45, 45, 45, 45, 45, 10, 73, 100, 58, 32]
}

pub open spec fn lit_version_hdr() -> Seq<u8> {
    seq![10u8, 86, 101, 114, 115, 105, 111, 110, 58, 32]
}

pub open spec fn lit_type_hdr() -> Seq<u8> {
    seq![10u8, 84, 121, 112, 101, 58, 32]
}

pub open spec fn lit_transfer_word() -> Seq<u8> {
    seq![116u8, 114, 97, 110, 115, 102, 101, 114]
}

pub open spec fn lit_contract_word() -> Seq<u8> {
    seq![99u8, 111, 110, 116, 114, 97, 99, 116]
}

pub open spec fn lit_contract_hdr() -> Seq<u8> {
    seq![10u8, 67, 111, 110, 116, 114, 97, 99, 116, 58, 32]
}

pub open spec fn lit_schema_hdr() -> Seq<u8> {
    seq![10u8, 83, 99, 104, 101, 109, 97, 58, 32]
}

pub open spec fn lit_checksum_hdr() -> Seq<u8> {
    seq![10u8, 67, 104, 101, 99, 107, 45, 83, 72, 65, 50, 53, 54, 58, 32]
}

pub open spec fn lit_blank() -> Seq<u8> {
    seq![10u8, 10]
}

pub open spec fn lit_end() -> Seq<u8> {
    seq![10u8, 45, 45, 45, 45, 45, 69, 78, 68, 32, 82, 71, 66, 32, 67, 79, 78, 83, 73, 71, 78, 77, 69, 78, 84, 45, 45, 45, 45, 45, 10]
}

/// The version, type, contract and schema header lines.
pub open spec fn armored_mid(c: Consignment) -> Seq<u8> {
    lit_version_hdr() + hex_of(seq![c.version]) + lit_type_hdr() + (if c.transfer {
        lit_transfer_word()
    } else {
        lit_contract_word()
    }) + lit_contract_hdr() + hex_of(id_bytes(contract_id_spec(c.genesis)))
        + lit_schema_hdr() + hex_of(id_bytes(schema_id_spec(c.schema)))
}

/// The checksum header, the blank line, the hex body and the end plate.
pub open spec fn armored_foot(c: Consignment) -> Seq<u8> {
    lit_checksum_hdr() + hex_of(id_bytes(digest_id_spec(TAG_CHECKSUM, enc_body(c))))
        + lit_blank() + hex_of(enc_body(c)) + lit_end()
}

/// The header part of the armored text that follows the identifier field.
pub open spec fn armored_tail(c: Consignment) -> Seq<u8> {
    armored_mid(c) + armored_foot(c)
}

/// The whole armored text of a consignment: begin plate, identifier,
/// version, declared type, contract, schema and checksum headers, a blank
/// line, the hex body, and the end plate.
pub open spec fn armored_text(c: Consignment) -> Seq<u8> {
    lit_begin() + hex_of(id_bytes(c.commit_id_spec())) + armored_tail(c)
}

/// The identifier field of an armored text spells the consignment's
/// commitment identifier.
#[verifier::rlimit(100)]
pub proof fn lemma_armored_header_id(c: Consignment)
    ensures
        armored_text(c).len() >= 100,
        unhex_id_at(armored_text(c), OFF_ID as int) == Some(c.commit_id_spec()),
{
    let s = armored_text(c);
    let a = lit_begin();
    let h = hex_of(id_bytes(c.commit_id_spec()));
    let t = armored_tail(c);
    crate::ids::lemma_id_bytes_len(c.commit_id_spec());
    lemma_hex_of_len(id_bytes(c.commit_id_spec()));
    assert(a.len() == 36);
    assert(h.len() == 64);
    assert(s =~= (a + h) + t);
    assert(s.subrange(36, 100) =~= h) by {
        assert forall|j: int| 0 <= j < 64 implies s.subrange(36, 100)[j] == h[j] by {
            assert(s.subrange(36, 100)[j] == s[36 + j]);
            assert(s[36 + j] == ((a + h) + t)[36 + j]);
            assert(((a + h) + t)[36 + j] == (a + h)[36 + j]);
            assert((a + h)[36 + j] == h[j]);
        }
    }
    lemma_unhex_hex(id_bytes(c.commit_id_spec()));
    lemma_id_bytes_roundtrip(c.commit_id_spec());
}

/// Appends a fixed literal.
fn push_lit<const N: usize>(buf: &mut Vec<u8>, lit: &[u8; N])
    ensures
        final(buf)@ == old(buf)@ + lit@,
{
    let mut k: usize = 0;
    while k < N
        invariant
            k <= N,
            buf@ == old(buf)@ + lit@.subrange(0, k as int),
        decreases N - k,
    {
        buf.push(lit[k]);
        proof {
            assert(buf@ =~= old(buf)@ + lit@.subrange(0, k as int + 1));
        }
        k += 1;
    }
    proof {
        assert(lit@.subrange(0, N as int) =~= lit@);
    }
}

// ------------------------------------------------------------ body encoding

/// The canonical binary body of a consignment: every field in a fixed
/// order, lists length-prefixed.
pub open spec fn enc_body(c: Consignment) -> Seq<u8> {
    crate::codec::enc_u8(c.version) + crate::codec::enc_bool(c.transfer) + c.enc_terminals()
        + crate::model::enc_genesis(c.genesis)
        + enc_list(c.extensions@, |x: Extension| enc_extension(x))
        + enc_list(c.bundles@, |bw: BundledWitness| crate::model::enc_bundled_witness(bw))
        + crate::model::enc_schema(c.schema)
        + enc_list(c.ifaces@, |p: IfacePair| enc_iface_pair(p))
        + enc_list(c.supplements@, |sp: Supplement| enc_supplement(sp))
        + crate::model::enc_type_system(c.types)
        + enc_list(c.scripts@, |l: ScriptLib| enc_script_lib(l))
        + enc_list(c.attachments@, |e: (Id, Vec<u8>)| crate::codec::enc_id(e.0)
            + crate::codec::enc_bytes(e.1@))
        + c.enc_signatures()
}

fn write_extensions(buf: &mut Vec<u8>, v: &Vec<Extension>)
    ensures
        final(buf)@ == old(buf)@ + enc_list(v@, |x: Extension| enc_extension(x)),
{
    push_u64(buf, v.len() as u64);
    let ghost f = |x: Extension| enc_extension(x);
    let ghost pre = buf@;
    let mut k: usize = 0;
    while k < v.len()
        invariant
            k <= v.len(),
            buf@ == pre + enc_each(v@.subrange(0, k as int), f),
            f == (|x: Extension| enc_extension(x)),
        decreases v.len() - k,
    {
        write_extension(buf, &v[k]);
        proof {
            lemma_enc_each_push(v@.subrange(0, k as int), f, v@[k as int]);
            assert(v@.subrange(0, k as int).push(v@[k as int])
                =~= v@.subrange(0, k as int + 1));
            assert(buf@ =~= pre + enc_each(v@.subrange(0, k as int + 1), f));
        }
        k += 1;
    }
    proof {
        assert(v@.subrange(0, v@.len() as int) =~= v@);
        assert(buf@ =~= old(buf)@ + enc_list(v@, f));
    }
}

fn write_bundled_witnesses(buf: &mut Vec<u8>, v: &Vec<BundledWitness>)
    ensures
        final(buf)@ == old(buf)@ + enc_list(v@, |bw: BundledWitness|
            crate::model::enc_bundled_witness(bw)),
{
    push_u64(buf, v.len() as u64);
    let ghost f = |bw: BundledWitness| crate::model::enc_bundled_witness(bw);
    let ghost pre = buf@;
    let mut k: usize = 0;
    while k < v.len()
        invariant
            k <= v.len(),
            buf@ == pre + enc_each(v@.subrange(0, k as int), f),
            f == (|bw: BundledWitness| crate::model::enc_bundled_witness(bw)),
        decreases v.len() - k,
    {
        write_bundled_witness(buf, &v[k]);
        proof {
            lemma_enc_each_push(v@.subrange(0, k as int), f, v@[k as int]);
            assert(v@.subrange(0, k as int).push(v@[k as int])
                =~= v@.subrange(0, k as int + 1));
            assert(buf@ =~= pre + enc_each(v@.subrange(0, k as int + 1), f));
        }
        k += 1;
    }
    proof {
        assert(v@.subrange(0, v@.len() as int) =~= v@);
        assert(buf@ =~= old(buf)@ + enc_list(v@, f));
    }
}

fn write_iface_pairs(buf: &mut Vec<u8>, v: &Vec<IfacePair>)
    ensures
        final(buf)@ == old(buf)@ + enc_list(v@, |p: IfacePair| enc_iface_pair(p)),
{
    push_u64(buf, v.len() as u64);
    let ghost f = |p: IfacePair| enc_iface_pair(p);
    let ghost pre = buf@;
    let mut k: usize = 0;
    while k < v.len()
        invariant
            k <= v.len(),
            buf@ == pre + enc_each(v@.subrange(0, k as int), f),
            f == (|p: IfacePair| enc_iface_pair(p)),
        decreases v.len() - k,
    {
        write_iface_pair(buf, &v[k]);
        proof {
            lemma_enc_each_push(v@.subrange(0, k as int), f, v@[k as int]);
            assert(v@.subrange(0, k as int).push(v@[k as int])
                =~= v@.subrange(0, k as int + 1));
            assert(buf@ =~= pre + enc_each(v@.subrange(0, k as int + 1), f));
        }
        k += 1;
    }
    proof {
        assert(v@.subrange(0, v@.len() as int) =~= v@);
        assert(buf@ =~= old(buf)@ + enc_list(v@, f));
    }
}

fn write_supplements(buf: &mut Vec<u8>, v: &Vec<Supplement>)
    ensures
        final(buf)@ == old(buf)@ + enc_list(v@, |sp: Supplement| enc_supplement(sp)),
{
    push_u64(buf, v.len() as u64);
    let ghost f = |sp: Supplement| enc_supplement(sp);
    let ghost pre = buf@;
    let mut k: usize = 0;
    while k < v.len()
        invariant
            k <= v.len(),
            buf@ == pre + enc_each(v@.subrange(0, k as int), f),
            f == (|sp: Supplement| enc_supplement(sp)),
        decreases v.len() - k,
    {
        push_bytes(buf, &v[k].payload);
        proof {
            lemma_enc_each_push(v@.subrange(0, k as int), f, v@[k as int]);
            assert(v@.subrange(0, k as int).push(v@[k as int])
                =~= v@.subrange(0, k as int + 1));
            assert(buf@ =~= pre + enc_each(v@.subrange(0, k as int + 1), f));
        }
        k += 1;
    }
    proof {
        assert(v@.subrange(0, v@.len() as int) =~= v@);
        assert(buf@ =~= old(buf)@ + enc_list(v@, f));
    }
}

fn write_script_libs(buf: &mut Vec<u8>, v: &Vec<ScriptLib>)
    ensures
        final(buf)@ == old(buf)@ + enc_list(v@, |l: ScriptLib| enc_script_lib(l)),
{
    push_u64(buf, v.len() as u64);
    let ghost f = |l: ScriptLib| enc_script_lib(l);
    let ghost pre = buf@;
    let mut k: usize = 0;
    while k < v.len()
        invariant
            k <= v.len(),
            buf@ == pre + enc_each(v@.subrange(0, k as int), f),
            f == (|l: ScriptLib| enc_script_lib(l)),
        decreases v.len() - k,
    {
        push_bytes(buf, &v[k].payload);
        proof {
            lemma_enc_each_push(v@.subrange(0, k as int), f, v@[k as int]);
            assert(v@.subrange(0, k as int).push(v@[k as int])
                =~= v@.subrange(0, k as int + 1));
            assert(buf@ =~= pre + enc_each(v@.subrange(0, k as int + 1), f));
        }
        k += 1;
    }
    proof {
        assert(v@.subrange(0, v@.len() as int) =~= v@);
        assert(buf@ =~= old(buf)@ + enc_list(v@, f));
    }
}

fn write_attachments(buf: &mut Vec<u8>, v: &Vec<(Id, Vec<u8>)>)
    ensures
        final(buf)@ == old(buf)@ + enc_list(v@, |e: (Id, Vec<u8>)| crate::codec::enc_id(e.0)
            + crate::codec::enc_bytes(e.1@)),
{
    push_u64(buf, v.len() as u64);
    let ghost f = |e: (Id, Vec<u8>)| crate::codec::enc_id(e.0) + crate::codec::enc_bytes(
        e.1@);
    let ghost pre = buf@;
    let mut k: usize = 0;
    while k < v.len()
        invariant
            k <= v.len(),
            buf@ == pre + enc_each(v@.subrange(0, k as int), f),
            f == (|e: (Id, Vec<u8>)| crate::codec::enc_id(e.0) + crate::codec::enc_bytes(
                e.1@)),
        decreases v.len() - k,
    {
        push_id(buf, &v[k].0);
        push_bytes(buf, &v[k].1);
        proof {
            lemma_enc_each_push(v@.subrange(0, k as int), f, v@[k as int]);
            assert(v@.subrange(0, k as int).push(v@[k as int])
                =~= v@.subrange(0, k as int + 1));
            assert(buf@ =~= pre + enc_each(v@.subrange(0, k as int + 1), f));
        }
        k += 1;
    }
    proof {
        assert(v@.subrange(0, v@.len() as int) =~= v@);
        assert(buf@ =~= old(buf)@ + enc_list(v@, f));
    }
}

/// Writes the canonical binary body.
#[verifier::rlimit(100)]
pub fn write_body(buf: &mut Vec<u8>, c: &Consignment)
    ensures
        final(buf)@ == old(buf)@ + enc_body(*c),
{
    push_u8(buf, c.version);
    push_bool(buf, c.transfer);
    c.write_terminals(buf);
    write_genesis(buf, &c.genesis);
    write_extensions(buf, &c.extensions);
    write_bundled_witnesses(buf, &c.bundles);
    push_bytes(buf, &c.schema.payload);
    write_iface_pairs(buf, &c.ifaces);
    write_supplements(buf, &c.supplements);
    push_bytes(buf, &c.types.payload);
    write_script_libs(buf, &c.scripts);
    write_attachments(buf, &c.attachments);
    c.write_signatures(buf);
    proof {
        assert(buf@ =~= old(buf)@ + enc_body(*c));
    }
}

// ------------------------------------------------------------- body parsing

#[verifier::rlimit(100)]
fn parse_terminals(s: &Vec<u8>, pos: usize, tgt: Ghost<Option<(Seq<(Id, Id)>, Seq<u8>)>>)
    -> (r: Option<(Vec<(Id, Id)>, usize)>)
    requires
        pos <= s@.len(),
        tgt@ matches Some(t) ==> t.0.len() <= u64::MAX && s@.skip(pos as int) == enc_list(
            t.0, |e: (Id, Id)| enc_id(e.0) + enc_id(e.1)) + t.1,
    ensures
        r matches Some(x) ==> pos <= x.1 <= s@.len(),
        tgt@ matches Some(t) ==> r matches Some(x) && x.0@ == t.0 && s@.skip(x.1 as int)
            == t.1,
{
    let ghost f = |e: (Id, Id)| enc_id(e.0) + enc_id(e.1);
    proof {
        if tgt@ is Some {
            let t = tgt@->Some_0;
            assert(s@.skip(pos as int) =~= enc_u64(t.0.len() as u64) + (enc_each(t.0, f)
                + t.1));
            lemma_suffix_prefix(s@, pos as int, enc_u64(t.0.len() as u64), enc_each(t.0, f)
                + t.1);
            lemma_p_u64_enc(s@, pos as int, t.0.len() as u64);
        }
    }
    let (n, p0) = match parse_u64(s, pos) {
        Some(x) => x,
        None => {
            return None;
        },
    };
    let mut out: Vec<(Id, Id)> = Vec::new();
    proof {
        if tgt@ is Some {
            assert(tgt@->Some_0.0.skip(0) =~= tgt@->Some_0.0);
            assert(out@ =~= tgt@->Some_0.0.subrange(0, 0));
        }
    }
    let mut p: usize = p0;
    let mut k: u64 = 0;
    while k < n
        invariant
            pos <= p <= s@.len(),
            out@.len() == k,
            k <= n,
            f == (|e: (Id, Id)| enc_id(e.0) + enc_id(e.1)),
            tgt@ matches Some(t) ==> n == t.0.len() && out@ == t.0.subrange(0, k as int)
                && s@.skip(p as int) == enc_each(t.0.skip(k as int), f) + t.1,
        decreases n - k,
    {
        proof {
            if tgt@ is Some {
                let t = tgt@->Some_0;
                let rest = t.0.skip(k as int);
                assert(rest[0] == t.0[k as int]);
                assert(rest.drop_first() =~= t.0.skip(k as int + 1));
                assert(s@.skip(p as int) =~= enc_id(t.0[k as int].0) + (enc_id(
                    t.0[k as int].1) + (enc_each(t.0.skip(k as int + 1), f) + t.1)));
                lemma_suffix_prefix(s@, p as int, enc_id(t.0[k as int].0), enc_id(
                    t.0[k as int].1) + (enc_each(t.0.skip(k as int + 1), f) + t.1));
                lemma_p_id_enc(s@, p as int, t.0[k as int].0);
                lemma_suffix_prefix(s@, p as int + 32, enc_id(t.0[k as int].1), enc_each(
                    t.0.skip(k as int + 1), f) + t.1);
                lemma_p_id_enc(s@, p as int + 32, t.0[k as int].1);
            }
        }
        let (a, p2) = match parse_id(s, p) {
            Some(x) => x,
            None => {
                return None;
            },
        };
        let (b, p3) = match parse_id(s, p2) {
            Some(x) => x,
            None => {
                return None;
            },
        };
        out.push((a, b));
        proof {
            if tgt@ is Some {
                let t = tgt@->Some_0;
                assert(out@ =~= t.0.subrange(0, k as int + 1));
            }
        }
        p = p3;
        k += 1;
    }
    proof {
        if tgt@ is Some {
            let t = tgt@->Some_0;
            assert(out@ =~= t.0);
            assert(t.0.skip(k as int) =~= Seq::<(Id, Id)>::empty());
            assert(enc_each(t.0.skip(k as int), f) + t.1 =~= t.1);
        }
    }
    Some((out, p))
}

#[verifier::rlimit(100)]
fn parse_genesis(s: &Vec<u8>, pos: usize, tgt: Ghost<Option<(Genesis, Seq<u8>)>>) -> (r:
    Option<(Genesis, usize)>)
    requires
        pos <= s@.len(),
        tgt@ matches Some(t) ==> s@.skip(pos as int) == enc_genesis(t.0) + t.1,
    ensures
        r matches Some(x) ==> pos <= x.1 <= s@.len(),
        tgt@ matches Some(t) ==> r matches Some(x) && x.0@ == t.0@ && s@.skip(x.1 as int)
            == t.1,
{
    proof {
        if tgt@ is Some {
            let t = tgt@->Some_0;
            let g = t.0;
            assert(g.payload.len() == g.payload@.len());
            assert(s@.skip(pos as int) =~= enc_id(g.schema_id) + (enc_bool(g.testnet)
                + (enc_bytes(g.payload@) + t.1)));
            lemma_suffix_prefix(s@, pos as int, enc_id(g.schema_id), enc_bool(g.testnet)
                + (enc_bytes(g.payload@) + t.1));
            lemma_p_id_enc(s@, pos as int, g.schema_id);
            lemma_suffix_prefix(s@, pos as int + 32, enc_bool(g.testnet), enc_bytes(
                g.payload@) + t.1);
            lemma_p_bool_enc(s@, pos as int + 32, g.testnet);
            lemma_suffix_prefix(s@, pos as int + 33, enc_bytes(g.payload@), t.1);
            lemma_p_bytes_enc(s@, pos as int + 33, g.payload@);
        }
    }
    let (schema_id, p1) = match parse_id(s, pos) {
        Some(x) => x,
        None => {
            return None;
        },
    };
    let (testnet, p2) = match parse_bool(s, p1) {
        Some(x) => x,
        None => {
            return None;
        },
    };
    let (payload, p3) = match parse_bytes(s, p2) {
        Some(x) => x,
        None => {
            return None;
        },
    };
    let r = Genesis { schema_id, testnet, payload };
    proof {
        if tgt@ is Some {
            assert(r@ =~= tgt@->Some_0.0@);
        }
    }
    Some((r, p3))
}

#[verifier::rlimit(100)]
fn parse_extensions(s: &Vec<u8>, pos: usize, tgt: Ghost<Option<(Seq<Extension>, Seq<u8>)>>)
    -> (r: Option<(Vec<Extension>, usize)>)
    requires
        pos <= s@.len(),
        tgt@ matches Some(t) ==> t.0.len() <= u64::MAX && s@.skip(pos as int) == enc_list(
            t.0, |x: Extension| enc_extension(x)) + t.1,
    ensures
        r matches Some(x) ==> pos <= x.1 <= s@.len(),
        tgt@ matches Some(t) ==> r matches Some(x) && x.0@.len() == t.0.len() && (forall|
            i: int| 0 <= i < t.0.len() ==> (#[trigger] x.0@[i]).payload@ == t.0[i].payload@)
            && s@.skip(x.1 as int) == t.1,
{
    let ghost f = |x: Extension| enc_extension(x);
    proof {
        if tgt@ is Some {
            let t = tgt@->Some_0;
            assert(s@.skip(pos as int) =~= enc_u64(t.0.len() as u64) + (enc_each(t.0, f)
                + t.1));
            lemma_suffix_prefix(s@, pos as int, enc_u64(t.0.len() as u64), enc_each(t.0, f)
                + t.1);
            lemma_p_u64_enc(s@, pos as int, t.0.len() as u64);
        }
    }
    let (n, p0) = match parse_u64(s, pos) {
        Some(x) => x,
        None => {
            return None;
        },
    };
    let mut out: Vec<Extension> = Vec::new();
    proof {
        if tgt@ is Some {
            assert(tgt@->Some_0.0.skip(0) =~= tgt@->Some_0.0);
        }
    }
    let mut p: usize = p0;
    let mut k: u64 = 0;
    while k < n
        invariant
            pos <= p <= s@.len(),
            out@.len() == k,
            k <= n,
            f == (|x: Extension| enc_extension(x)),
            tgt@ matches Some(t) ==> n == t.0.len() && (forall|i: int| 0 <= i < k ==> (
                #[trigger] out@[i]).payload@ == t.0[i].payload@) && s@.skip(p as int)
                == enc_each(t.0.skip(k as int), f) + t.1,
        decreases n - k,
    {
        proof {
            if tgt@ is Some {
                let t = tgt@->Some_0;
                let rest = t.0.skip(k as int);
                assert(rest[0] == t.0[k as int]);
                assert(rest.drop_first() =~= t.0.skip(k as int + 1));
                assert(t.0[k as int].payload.len() == t.0[k as int].payload@.len());
                assert(s@.skip(p as int) =~= enc_bytes(t.0[k as int].payload@) + (enc_each(
                    t.0.skip(k as int + 1), f) + t.1));
                lemma_suffix_prefix(s@, p as int, enc_bytes(t.0[k as int].payload@),
                    enc_each(t.0.skip(k as int + 1), f) + t.1);
                lemma_p_bytes_enc(s@, p as int, t.0[k as int].payload@);
            }
        }
        let (payload, p2) = match parse_bytes(s, p) {
            Some(x) => x,
            None => {
                return None;
            },
        };
        out.push(Extension { payload });
        p = p2;
        k += 1;
    }
    proof {
        if tgt@ is Some {
            let t = tgt@->Some_0;
            assert(t.0.skip(k as int) =~= Seq::<Extension>::empty());
            assert(enc_each(t.0.skip(k as int), f) + t.1 =~= t.1);
        }
    }
    Some((out, p))
}

#[verifier::rlimit(100)]
fn parse_seal(s: &Vec<u8>, pos: usize, tgt: Ghost<Option<(Seal, Seq<u8>)>>) -> (r: Option<(
    Seal, usize)>)
    requires
        pos <= s@.len(),
        tgt@ matches Some(t) ==> s@.skip(pos as int) == enc_seal(t.0) + t.1,
    ensures
        r matches Some(x) ==> pos <= x.1 <= s@.len(),
        tgt@ matches Some(t) ==> r matches Some(x) && x.0 == t.0 && s@.skip(x.1 as int)
            == t.1,
{
    proof {
        if tgt@ is Some {
            let t = tgt@->Some_0;
            match t.0 {
                Seal::Concealed(id) => {
                    assert(s@.skip(pos as int) =~= enc_u8(0) + (enc_id(id) + t.1));
                    lemma_suffix_prefix(s@, pos as int, enc_u8(0), enc_id(id) + t.1);
                    lemma_p_u8_enc(s@, pos as int, 0);
                    lemma_suffix_prefix(s@, pos as int + 1, enc_id(id), t.1);
                    lemma_p_id_enc(s@, pos as int + 1, id);
                },
                Seal::Revealed(g) => {
                    assert(s@.skip(pos as int) =~= enc_u8(1) + (enc_id(g.txid) + (enc_u32(
                        g.vout) + (enc_u64(g.blinding) + t.1))));
                    lemma_suffix_prefix(s@, pos as int, enc_u8(1), enc_id(g.txid) + (
                        enc_u32(g.vout) + (enc_u64(g.blinding) + t.1)));
                    lemma_p_u8_enc(s@, pos as int, 1);
                    lemma_suffix_prefix(s@, pos as int + 1, enc_id(g.txid), enc_u32(g.vout)
                        + (enc_u64(g.blinding) + t.1));
                    lemma_p_id_enc(s@, pos as int + 1, g.txid);
                    lemma_suffix_prefix(s@, pos as int + 33, enc_u32(g.vout), enc_u64(
                        g.blinding) + t.1);
                    lemma_p_u32_enc(s@, pos as int + 33, g.vout);
                    lemma_suffix_prefix(s@, pos as int + 37, enc_u64(g.blinding), t.1);
                    lemma_p_u64_enc(s@, pos as int + 37, g.blinding);
                },
            }
        }
    }
    let (tag, p1) = match parse_u8(s, pos) {
        Some(x) => x,
        None => {
            return None;
        },
    };
    if tag == 0 {
        match parse_id(s, p1) {
            Some((id, p2)) => Some((Seal::Concealed(id), p2)),
            None => None,
        }
    } else if tag == 1 {
        let (txid, p2) = match parse_id(s, p1) {
            Some(x) => x,
            None => {
                return None;
            },
        };
        let (vout, p3) = match parse_u32(s, p2) {
            Some(x) => x,
            None => {
                return None;
            },
        };
        let (blinding, p4) = match parse_u64(s, p3) {
            Some(x) => x,
            None => {
                return None;
            },
        };
        Some((Seal::Revealed(GraphSeal { txid, vout, blinding }), p4))
    } else {
        None
    }
}

#[verifier::rlimit(100)]
fn parse_state(s: &Vec<u8>, pos: usize, tgt: Ghost<Option<(PersistedState, Seq<u8>)>>) -> (r:
    Option<(PersistedState, usize)>)
    requires
        pos <= s@.len(),
        tgt@ matches Some(t) ==> s@.skip(pos as int) == enc_state(t.0) + t.1,
    ensures
        r matches Some(x) ==> pos <= x.1 <= s@.len(),
        tgt@ matches Some(t) ==> r matches Some(x) && x.0@ == t.0@ && s@.skip(x.1 as int)
            == t.1,
{
    proof {
        if tgt@ is Some {
            let t = tgt@->Some_0;
            match t.0 {
                PersistedState::Void => {
                    assert(s@.skip(pos as int) =~= enc_u8(0) + t.1);
                    lemma_suffix_prefix(s@, pos as int, enc_u8(0), t.1);
                    lemma_p_u8_enc(s@, pos as int, 0);
                },
                PersistedState::Amount(a, b, tg) => {
                    assert(s@.skip(pos as int) =~= enc_u8(1) + (enc_u64(a) + (enc_id(b) + (
                        enc_id(tg) + t.1))));
                    lemma_suffix_prefix(s@, pos as int, enc_u8(1), enc_u64(a) + (enc_id(b)
                        + (enc_id(tg) + t.1)));
                    lemma_p_u8_enc(s@, pos as int, 1);
                    lemma_suffix_prefix(s@, pos as int + 1, enc_u64(a), enc_id(b) + (enc_id(
                        tg) + t.1));
                    lemma_p_u64_enc(s@, pos as int + 1, a);
                    lemma_suffix_prefix(s@, pos as int + 9, enc_id(b), enc_id(tg) + t.1);
                    lemma_p_id_enc(s@, pos as int + 9, b);
                    lemma_suffix_prefix(s@, pos as int + 41, enc_id(tg), t.1);
                    lemma_p_id_enc(s@, pos as int + 41, tg);
                },
                PersistedState::Data(d, salt) => {
                    assert(d.len() == d@.len());
                    assert(s@.skip(pos as int) =~= enc_u8(2) + (enc_bytes(d@) + (enc_u128(
                        salt) + t.1)));
                    lemma_suffix_prefix(s@, pos as int, enc_u8(2), enc_bytes(d@) + (
                        enc_u128(salt) + t.1));
                    lemma_p_u8_enc(s@, pos as int, 2);
                    lemma_suffix_prefix(s@, pos as int + 1, enc_bytes(d@), enc_u128(salt)
                        + t.1);
                    lemma_p_bytes_enc(s@, pos as int + 1, d@);
                    lemma_suffix_prefix(s@, pos as int + 9 + d@.len(), enc_u128(salt), t.1);
                    lemma_p_u128_enc(s@, pos as int + 9 + d@.len(), salt);
                },
                PersistedState::Attachment(id, salt) => {
                    assert(s@.skip(pos as int) =~= enc_u8(3) + (enc_id(id) + (enc_u64(salt)
                        + t.1)));
                    lemma_suffix_prefix(s@, pos as int, enc_u8(3), enc_id(id) + (enc_u64(
                        salt) + t.1));
                    lemma_p_u8_enc(s@, pos as int, 3);
                    lemma_suffix_prefix(s@, pos as int + 1, enc_id(id), enc_u64(salt) + t.1);
                    lemma_p_id_enc(s@, pos as int + 1, id);
                    lemma_suffix_prefix(s@, pos as int + 33, enc_u64(salt), t.1);
                    lemma_p_u64_enc(s@, pos as int + 33, salt);
                },
            }
        }
    }
    let (tag, p1) = match parse_u8(s, pos) {
        Some(x) => x,
        None => {
            return None;
        },
    };
    if tag == 0 {
        Some((PersistedState::Void, p1))
    } else if tag == 1 {
        let (a, p2) = match parse_u64(s, p1) {
            Some(x) => x,
            None => {
                return None;
            },
        };
        let (b, p3) = match parse_id(s, p2) {
            Some(x) => x,
            None => {
                return None;
            },
        };
        let (t2, p4) = match parse_id(s, p3) {
            Some(x) => x,
            None => {
                return None;
            },
        };
        Some((PersistedState::Amount(a, b, t2), p4))
    } else if tag == 2 {
        let (d, p2) = match parse_bytes(s, p1) {
            Some(x) => x,
            None => {
                return None;
            },
        };
        let (salt, p3) = match parse_u128(s, p2) {
            Some(x) => x,
            None => {
                return None;
            },
        };
        Some((PersistedState::Data(d, salt), p3))
    } else if tag == 3 {
        let (id, p2) = match parse_id(s, p1) {
            Some(x) => x,
            None => {
                return None;
            },
        };
        let (salt, p3) = match parse_u64(s, p2) {
            Some(x) => x,
            None => {
                return None;
            },
        };
        Some((PersistedState::Attachment(id, salt), p3))
    } else {
        None
    }
}

#[verifier::rlimit(100)]
fn parse_transition(s: &Vec<u8>, pos: usize, tgt: Ghost<Option<(Transition, Seq<u8>)>>) -> (
    r: Option<(Transition, usize)>)
    requires
        pos <= s@.len(),
        tgt@ matches Some(t) ==> s@.skip(pos as int) == enc_transition(t.0) + t.1,
    ensures
        r matches Some(x) ==> pos <= x.1 <= s@.len(),
        tgt@ matches Some(t) ==> r matches Some(x) && same_transition(x.0, t.0) && s@.skip(
            x.1 as int) == t.1,
{
    let ghost fo = |o: Opout| enc_opout(o);
    let ghost fa = |a: Assignment| enc_assignment(a);
    proof {
        if tgt@ is Some {
            let t = tgt@->Some_0;
            let tr = t.0;
            assert(tr.inputs.len() == tr.inputs@.len());
            assert(tr.assignments.len() == tr.assignments@.len());
            assert(s@.skip(pos as int) =~= enc_id(tr.contract_id) + (enc_u16(
                tr.transition_type) + (enc_list(tr.inputs@, fo) + (enc_list(tr.assignments@,
                fa) + (enc_bytes(tr.payload@) + t.1)))));
            lemma_suffix_prefix(s@, pos as int, enc_id(tr.contract_id), enc_u16(
                tr.transition_type) + (enc_list(tr.inputs@, fo) + (enc_list(tr.assignments@,
                fa) + (enc_bytes(tr.payload@) + t.1))));
            lemma_p_id_enc(s@, pos as int, tr.contract_id);
            lemma_suffix_prefix(s@, pos as int + 32, enc_u16(tr.transition_type), enc_list(
                tr.inputs@, fo) + (enc_list(tr.assignments@, fa) + (enc_bytes(tr.payload@)
                + t.1)));
            lemma_p_u16_enc(s@, pos as int + 32, tr.transition_type);
        }
    }
    let (contract_id, p1) = match parse_id(s, pos) {
        Some(x) => x,
        None => {
            return None;
        },
    };
    let (transition_type, p2) = match parse_u16(s, p1) {
        Some(x) => x,
        None => {
            return None;
        },
    };
    proof {
        if tgt@ is Some {
            let t = tgt@->Some_0;
            let tr = t.0;
            assert(s@.skip(p2 as int) =~= enc_u64(tr.inputs@.len() as u64) + (enc_each(
                tr.inputs@, fo) + (enc_list(tr.assignments@, fa) + (enc_bytes(tr.payload@)
                + t.1))));
            lemma_suffix_prefix(s@, p2 as int, enc_u64(tr.inputs@.len() as u64), enc_each(
                tr.inputs@, fo) + (enc_list(tr.assignments@, fa) + (enc_bytes(tr.payload@)
                + t.1)));
            lemma_p_u64_enc(s@, p2 as int, tr.inputs@.len() as u64);
        }
    }
    let (ni, p3) = match parse_u64(s, p2) {
        Some(x) => x,
        None => {
            return None;
        },
    };
    let mut inputs: Vec<Opout> = Vec::new();
    proof {
        if tgt@ is Some {
            assert(tgt@->Some_0.0.inputs@.skip(0) =~= tgt@->Some_0.0.inputs@);
            assert(inputs@ =~= tgt@->Some_0.0.inputs@.subrange(0, 0));
        }
    }
    let mut p: usize = p3;
    let mut k: u64 = 0;
    while k < ni
        invariant
            pos <= p <= s@.len(),
            inputs@.len() == k,
            k <= ni,
            fo == (|o: Opout| enc_opout(o)),
            fa == (|a: Assignment| enc_assignment(a)),
            tgt@ matches Some(t) ==> ni == t.0.inputs@.len() && inputs@
                == t.0.inputs@.subrange(0, k as int) && s@.skip(p as int) == enc_each(
                t.0.inputs@.skip(k as int), fo) + (enc_list(t.0.assignments@, fa) + (
                enc_bytes(t.0.payload@) + t.1)),
        decreases ni - k,
    {
        proof {
            if tgt@ is Some {
                let t = tgt@->Some_0;
                let rest = t.0.inputs@.skip(k as int);
                let after = enc_list(t.0.assignments@, fa) + (enc_bytes(t.0.payload@) + t.1);
                assert(rest[0] == t.0.inputs@[k as int]);
                assert(rest.drop_first() =~= t.0.inputs@.skip(k as int + 1));
                let o = t.0.inputs@[k as int];
                assert(s@.skip(p as int) =~= enc_id(o.op) + (enc_u16(o.ty) + (enc_u16(o.no)
                    + (enc_each(t.0.inputs@.skip(k as int + 1), fo) + after))));
                lemma_suffix_prefix(s@, p as int, enc_id(o.op), enc_u16(o.ty) + (enc_u16(
                    o.no) + (enc_each(t.0.inputs@.skip(k as int + 1), fo) + after)));
                lemma_p_id_enc(s@, p as int, o.op);
                lemma_suffix_prefix(s@, p as int + 32, enc_u16(o.ty), enc_u16(o.no) + (
                    enc_each(t.0.inputs@.skip(k as int + 1), fo) + after));
                lemma_p_u16_enc(s@, p as int + 32, o.ty);
                lemma_suffix_prefix(s@, p as int + 34, enc_u16(o.no), enc_each(
                    t.0.inputs@.skip(k as int + 1), fo) + after);
                lemma_p_u16_enc(s@, p as int + 34, o.no);
            }
        }
        let (op, q1) = match parse_id(s, p) {
            Some(x) => x,
            None => {
                return None;
            },
        };
        let (ty, q2) = match parse_u16(s, q1) {
            Some(x) => x,
            None => {
                return None;
            },
        };
        let (no, q3) = match parse_u16(s, q2) {
            Some(x) => x,
            None => {
                return None;
            },
        };
        inputs.push(Opout { op, ty, no });
        proof {
            if tgt@ is Some {
                assert(inputs@ =~= tgt@->Some_0.0.inputs@.subrange(0, k as int + 1));
            }
        }
        p = q3;
        k += 1;
    }
    proof {
        if tgt@ is Some {
            let t = tgt@->Some_0;
            assert(inputs@ =~= t.0.inputs@);
            assert(t.0.inputs@.skip(k as int) =~= Seq::<Opout>::empty());
            assert(enc_each(t.0.inputs@.skip(k as int), fo) + (enc_list(t.0.assignments@,
                fa) + (enc_bytes(t.0.payload@) + t.1)) =~= enc_u64(
                t.0.assignments@.len() as u64) + (enc_each(t.0.assignments@, fa) + (
                enc_bytes(t.0.payload@) + t.1)));
            lemma_suffix_prefix(s@, p as int, enc_u64(t.0.assignments@.len() as u64),
                enc_each(t.0.assignments@, fa) + (enc_bytes(t.0.payload@) + t.1));
            lemma_p_u64_enc(s@, p as int, t.0.assignments@.len() as u64);
        }
    }
    let (na, p4) = match parse_u64(s, p) {
        Some(x) => x,
        None => {
            return None;
        },
    };
    let mut assignments: Vec<Assignment> = Vec::new();
    proof {
        if tgt@ is Some {
            assert(tgt@->Some_0.0.assignments@.skip(0) =~= tgt@->Some_0.0.assignments@);
        }
    }
    let mut p5: usize = p4;
    let mut k2: u64 = 0;
    while k2 < na
        invariant
            pos <= p5 <= s@.len(),
            assignments@.len() == k2,
            k2 <= na,
            fa == (|a: Assignment| enc_assignment(a)),
            tgt@ matches Some(t) ==> na == t.0.assignments@.len() && (forall|i: int| 0 <= i
                < k2 ==> same_assignment(#[trigger] assignments@[i], t.0.assignments@[i]))
                && s@.skip(p5 as int) == enc_each(t.0.assignments@.skip(k2 as int), fa) + (
                enc_bytes(t.0.payload@) + t.1),
        decreases na - k2,
    {
        proof {
            if tgt@ is Some {
                let t = tgt@->Some_0;
                let rest = t.0.assignments@.skip(k2 as int);
                let after = enc_bytes(t.0.payload@) + t.1;
                assert(rest[0] == t.0.assignments@[k2 as int]);
                assert(rest.drop_first() =~= t.0.assignments@.skip(k2 as int + 1));
                let a = t.0.assignments@[k2 as int];
                assert(s@.skip(p5 as int) =~= enc_u16(a.ty) + (enc_seal(a.seal) + (enc_state(
                    a.state) + (enc_each(t.0.assignments@.skip(k2 as int + 1), fa)
                    + after))));
                lemma_suffix_prefix(s@, p5 as int, enc_u16(a.ty), enc_seal(a.seal) + (
                    enc_state(a.state) + (enc_each(t.0.assignments@.skip(k2 as int + 1), fa)
                    + after)));
                lemma_p_u16_enc(s@, p5 as int, a.ty);
                lemma_suffix_prefix(s@, p5 as int + 2, enc_seal(a.seal), enc_state(a.state)
                    + (enc_each(t.0.assignments@.skip(k2 as int + 1), fa) + after));
            }
        }
        let (ty, q1) = match parse_u16(s, p5) {
            Some(x) => x,
            None => {
                return None;
            },
        };
        let (seal, q2) = match parse_seal(s, q1, Ghost(
            if tgt@ is Some {
                let t = tgt@->Some_0;
                let a = t.0.assignments@[k2 as int];
                Some((a.seal, enc_state(a.state) + (enc_each(t.0.assignments@.skip(
                    k2 as int + 1), fa) + (enc_bytes(t.0.payload@) + t.1))))
            } else {
                None
            },
        )) {
            Some(x) => x,
            None => {
                return None;
            },
        };
        let (state, q3) = match parse_state(s, q2, Ghost(
            if tgt@ is Some {
                let t = tgt@->Some_0;
                let a = t.0.assignments@[k2 as int];
                Some((a.state, enc_each(t.0.assignments@.skip(k2 as int + 1), fa) + (
                    enc_bytes(t.0.payload@) + t.1)))
            } else {
                None
            },
        )) {
            Some(x) => x,
            None => {
                return None;
            },
        };
        assignments.push(Assignment { ty, seal, state });
        p5 = q3;
        k2 += 1;
    }
    proof {
        if tgt@ is Some {
            let t = tgt@->Some_0;
            assert(t.0.payload.len() == t.0.payload@.len());
            assert(t.0.assignments@.skip(k2 as int) =~= Seq::<Assignment>::empty());
            assert(enc_each(t.0.assignments@.skip(k2 as int), fa) + (enc_bytes(t.0.payload@)
                + t.1) =~= enc_bytes(t.0.payload@) + t.1);
            lemma_suffix_prefix(s@, p5 as int, enc_bytes(t.0.payload@), t.1);
            lemma_p_bytes_enc(s@, p5 as int, t.0.payload@);
        }
    }
    let (payload, p6) = match parse_bytes(s, p5) {
        Some(x) => x,
        None => {
            return None;
        },
    };
    Some((Transition { contract_id, transition_type, inputs, assignments, payload }, p6))
}

#[verifier::rlimit(100)]
fn parse_bundle(s: &Vec<u8>, pos: usize, tgt: Ghost<Option<(Bundle, Seq<u8>)>>) -> (r:
    Option<(Bundle, usize)>)
    requires
        pos <= s@.len(),
        tgt@ matches Some(t) ==> s@.skip(pos as int) == enc_bundle(t.0) + t.1,
    ensures
        r matches Some(x) ==> pos <= x.1 <= s@.len(),
        tgt@ matches Some(t) ==> r matches Some(x) && same_bundle(x.0, t.0) && s@.skip(
            x.1 as int) == t.1,
{
    let ghost ft = |t2: Transition| enc_transition(t2);
    proof {
        if tgt@ is Some {
            let t = tgt@->Some_0;
            assert(t.0.transitions.len() == t.0.transitions@.len());
            assert(s@.skip(pos as int) =~= enc_u64(t.0.transitions@.len() as u64) + (
                enc_each(t.0.transitions@, ft) + t.1));
            lemma_suffix_prefix(s@, pos as int, enc_u64(t.0.transitions@.len() as u64),
                enc_each(t.0.transitions@, ft) + t.1);
            lemma_p_u64_enc(s@, pos as int, t.0.transitions@.len() as u64);
        }
    }
    let (nt, p0) = match parse_u64(s, pos) {
        Some(x) => x,
        None => {
            return None;
        },
    };
    let mut transitions: Vec<Transition> = Vec::new();
    proof {
        if tgt@ is Some {
            assert(tgt@->Some_0.0.transitions@.skip(0) =~= tgt@->Some_0.0.transitions@);
        }
    }
    let mut q: usize = p0;
    let mut l: u64 = 0;
    while l < nt
        invariant
            pos <= q <= s@.len(),
            transitions@.len() == l,
            l <= nt,
            ft == (|t2: Transition| enc_transition(t2)),
            tgt@ matches Some(t) ==> nt == t.0.transitions@.len() && (forall|i: int| 0 <= i
                < l ==> same_transition(#[trigger] transitions@[i], t.0.transitions@[i]))
                && s@.skip(q as int) == enc_each(t.0.transitions@.skip(l as int), ft) + t.1,
        decreases nt - l,
    {
        proof {
            if tgt@ is Some {
                let t = tgt@->Some_0;
                let rest = t.0.transitions@.skip(l as int);
                assert(rest[0] == t.0.transitions@[l as int]);
                assert(rest.drop_first() =~= t.0.transitions@.skip(l as int + 1));
                assert(s@.skip(q as int) =~= enc_transition(t.0.transitions@[l as int]) + (
                    enc_each(t.0.transitions@.skip(l as int + 1), ft) + t.1));
            }
        }
        let (t2, q2) = match parse_transition(s, q, Ghost(
            if tgt@ is Some {
                let t = tgt@->Some_0;
                Some((t.0.transitions@[l as int], enc_each(t.0.transitions@.skip(
                    l as int + 1), ft) + t.1))
            } else {
                None
            },
        )) {
            Some(x) => x,
            None => {
                return None;
            },
        };
        transitions.push(t2);
        q = q2;
        l += 1;
    }
    proof {
        if tgt@ is Some {
            let t = tgt@->Some_0;
            assert(t.0.transitions@.skip(l as int) =~= Seq::<Transition>::empty());
            assert(enc_each(t.0.transitions@.skip(l as int), ft) + t.1 =~= t.1);
        }
    }
    Some((Bundle { transitions }, q))
}

#[verifier::rlimit(100)]
fn parse_bundled_witness(s: &Vec<u8>, pos: usize, tgt: Ghost<Option<(BundledWitness,
    Seq<u8>)>>) -> (r: Option<(BundledWitness, usize)>)
    requires
        pos <= s@.len(),
        tgt@ matches Some(t) ==> s@.skip(pos as int) == enc_bundled_witness(t.0) + t.1,
    ensures
        r matches Some(x) ==> pos <= x.1 <= s@.len(),
        tgt@ matches Some(t) ==> r matches Some(x) && same_bw(x.0, t.0) && s@.skip(
            x.1 as int) == t.1,
{
    let ghost fb = |b: Bundle| enc_bundle(b);
    proof {
        if tgt@ is Some {
            let t = tgt@->Some_0;
            assert(t.0.bundles.len() == t.0.bundles@.len());
            assert(s@.skip(pos as int) =~= enc_id(t.0.pub_witness.witness_id) + (enc_u64(
                t.0.bundles@.len() as u64) + (enc_each(t.0.bundles@, fb) + t.1)));
            lemma_suffix_prefix(s@, pos as int, enc_id(t.0.pub_witness.witness_id), enc_u64(
                t.0.bundles@.len() as u64) + (enc_each(t.0.bundles@, fb) + t.1));
            lemma_p_id_enc(s@, pos as int, t.0.pub_witness.witness_id);
            lemma_suffix_prefix(s@, pos as int + 32, enc_u64(t.0.bundles@.len() as u64),
                enc_each(t.0.bundles@, fb) + t.1);
            lemma_p_u64_enc(s@, pos as int + 32, t.0.bundles@.len() as u64);
        }
    }
    let (witness_id, p1) = match parse_id(s, pos) {
        Some(x) => x,
        None => {
            return None;
        },
    };
    let (nb, p2) = match parse_u64(s, p1) {
        Some(x) => x,
        None => {
            return None;
        },
    };
    let mut bundles: Vec<Bundle> = Vec::new();
    proof {
        if tgt@ is Some {
            assert(tgt@->Some_0.0.bundles@.skip(0) =~= tgt@->Some_0.0.bundles@);
        }
    }
    let mut p: usize = p2;
    let mut k: u64 = 0;
    while k < nb
        invariant
            pos <= p <= s@.len(),
            bundles@.len() == k,
            k <= nb,
            fb == (|b: Bundle| enc_bundle(b)),
            tgt@ matches Some(t) ==> nb == t.0.bundles@.len() && (forall|i: int| 0 <= i < k
                ==> same_bundle(#[trigger] bundles@[i], t.0.bundles@[i])) && s@.skip(
                p as int) == enc_each(t.0.bundles@.skip(k as int), fb) + t.1,
        decreases nb - k,
    {
        proof {
            if tgt@ is Some {
                let t = tgt@->Some_0;
                let rest = t.0.bundles@.skip(k as int);
                let a = enc_bundle(t.0.bundles@[k as int]);
                let b2 = enc_each(t.0.bundles@.skip(k as int + 1), fb);
                assert(rest[0] == t.0.bundles@[k as int]);
                assert(rest.drop_first() =~= t.0.bundles@.skip(k as int + 1));
                assert(enc_each(rest, fb) == a + b2);
                assert((a + b2) + t.1 =~= a + (b2 + t.1));
                assert(s@.skip(p as int) == a + (b2 + t.1));
            }
        }
        let (b, p3) = match parse_bundle(s, p, Ghost(
            if tgt@ is Some {
                let t = tgt@->Some_0;
                Some((t.0.bundles@[k as int], enc_each(t.0.bundles@.skip(k as int + 1), fb)
                    + t.1))
            } else {
                None
            },
        )) {
            Some(x) => x,
            None => {
                return None;
            },
        };
        bundles.push(b);
        p = p3;
        k += 1;
    }
    proof {
        if tgt@ is Some {
            let t = tgt@->Some_0;
            assert(t.0.bundles@.skip(k as int) =~= Seq::<Bundle>::empty());
            assert(enc_each(t.0.bundles@.skip(k as int), fb) + t.1 =~= t.1);
        }
    }
    Some((BundledWitness { pub_witness: PubWitness { witness_id }, bundles }, p))
}

#[verifier::rlimit(100)]
fn parse_bundled_witnesses(s: &Vec<u8>, pos: usize, tgt: Ghost<Option<(Seq<BundledWitness>,
    Seq<u8>)>>) -> (r: Option<(Vec<BundledWitness>, usize)>)
    requires
        pos <= s@.len(),
        tgt@ matches Some(t) ==> t.0.len() <= u64::MAX && s@.skip(pos as int) == enc_list(
            t.0, |bw: BundledWitness| enc_bundled_witness(bw)) + t.1,
    ensures
        r matches Some(x) ==> pos <= x.1 <= s@.len(),
        tgt@ matches Some(t) ==> r matches Some(x) && x.0@.len() == t.0.len() && (forall|
            i: int| 0 <= i < t.0.len() ==> same_bw(#[trigger] x.0@[i], t.0[i])) && s@.skip(
            x.1 as int) == t.1,
{
    let ghost f = |bw: BundledWitness| enc_bundled_witness(bw);
    proof {
        if tgt@ is Some {
            let t = tgt@->Some_0;
            assert(s@.skip(pos as int) =~= enc_u64(t.0.len() as u64) + (enc_each(t.0, f)
                + t.1));
            lemma_suffix_prefix(s@, pos as int, enc_u64(t.0.len() as u64), enc_each(t.0, f)
                + t.1);
            lemma_p_u64_enc(s@, pos as int, t.0.len() as u64);
        }
    }
    let (n, p0) = match parse_u64(s, pos) {
        Some(x) => x,
        None => {
            return None;
        },
    };
    let mut out: Vec<BundledWitness> = Vec::new();
    proof {
        if tgt@ is Some {
            assert(tgt@->Some_0.0.skip(0) =~= tgt@->Some_0.0);
        }
    }
    let mut p: usize = p0;
    let mut k: u64 = 0;
    while k < n
        invariant
            pos <= p <= s@.len(),
            out@.len() == k,
            k <= n,
            f == (|bw: BundledWitness| enc_bundled_witness(bw)),
            tgt@ matches Some(t) ==> n == t.0.len() && (forall|i: int| 0 <= i < k
                ==> same_bw(#[trigger] out@[i], t.0[i])) && s@.skip(p as int) == enc_each(
                t.0.skip(k as int), f) + t.1,
        decreases n - k,
    {
        proof {
            if tgt@ is Some {
                let t = tgt@->Some_0;
                let rest = t.0.skip(k as int);
                let a = enc_bundled_witness(t.0[k as int]);
                let b = enc_each(t.0.skip(k as int + 1), f);
                assert(rest[0] == t.0[k as int]);
                assert(rest.drop_first() =~= t.0.skip(k as int + 1));
                assert(enc_each(rest, f) == a + b);
                assert((a + b) + t.1 =~= a + (b + t.1));
                assert(s@.skip(p as int) == a + (b + t.1));
            }
        }
        let (bw, p2) = match parse_bundled_witness(s, p, Ghost(
            if tgt@ is Some {
                let t = tgt@->Some_0;
                Some((t.0[k as int], enc_each(t.0.skip(k as int + 1), f) + t.1))
            } else {
                None
            },
        )) {
            Some(x) => x,
            None => {
                return None;
            },
        };
        out.push(bw);
        p = p2;
        k += 1;
    }
    proof {
        if tgt@ is Some {
            let t = tgt@->Some_0;
            assert(t.0.skip(k as int) =~= Seq::<BundledWitness>::empty());
            assert(enc_each(t.0.skip(k as int), f) + t.1 =~= t.1);
        }
    }
    Some((out, p))
}

#[verifier::rlimit(100)]
fn parse_iface_pairs(s: &Vec<u8>, pos: usize, tgt: Ghost<Option<(Seq<IfacePair>, Seq<u8>)>>)
    -> (r: Option<(Vec<IfacePair>, usize)>)
    requires
        pos <= s@.len(),
        tgt@ matches Some(t) ==> t.0.len() <= u64::MAX && s@.skip(pos as int) == enc_list(
            t.0, |p2: IfacePair| enc_iface_pair(p2)) + t.1,
    ensures
        r matches Some(x) ==> pos <= x.1 <= s@.len(),
        tgt@ matches Some(t) ==> r matches Some(x) && x.0@.len() == t.0.len() && (forall|
            i: int| 0 <= i < t.0.len() ==> same_iface_pair(#[trigger] x.0@[i], t.0[i]))
            && s@.skip(x.1 as int) == t.1,
{
    let ghost f = |p2: IfacePair| enc_iface_pair(p2);
    proof {
        if tgt@ is Some {
            let t = tgt@->Some_0;
            assert(s@.skip(pos as int) =~= enc_u64(t.0.len() as u64) + (enc_each(t.0, f)
                + t.1));
            lemma_suffix_prefix(s@, pos as int, enc_u64(t.0.len() as u64), enc_each(t.0, f)
                + t.1);
            lemma_p_u64_enc(s@, pos as int, t.0.len() as u64);
        }
    }
    let (n, p0) = match parse_u64(s, pos) {
        Some(x) => x,
        None => {
            return None;
        },
    };
    let mut out: Vec<IfacePair> = Vec::new();
    proof {
        if tgt@ is Some {
            assert(tgt@->Some_0.0.skip(0) =~= tgt@->Some_0.0);
        }
    }
    let mut p: usize = p0;
    let mut k: u64 = 0;
    while k < n
        invariant
            pos <= p <= s@.len(),
            out@.len() == k,
            k <= n,
            f == (|p2: IfacePair| enc_iface_pair(p2)),
            tgt@ matches Some(t) ==> n == t.0.len() && (forall|i: int| 0 <= i < k
                ==> same_iface_pair(#[trigger] out@[i], t.0[i])) && s@.skip(p as int)
                == enc_each(t.0.skip(k as int), f) + t.1,
        decreases n - k,
    {
        proof {
            if tgt@ is Some {
                let t = tgt@->Some_0;
                let rest = t.0.skip(k as int);
                assert(rest[0] == t.0[k as int]);
                assert(rest.drop_first() =~= t.0.skip(k as int + 1));
                let e = t.0[k as int];
                assert(e.iface.name.len() == e.iface.name@.len());
                assert(e.iface.payload.len() == e.iface.payload@.len());
                assert(e.iimpl.payload.len() == e.iimpl.payload@.len());
                let after = enc_each(t.0.skip(k as int + 1), f) + t.1;
                assert(s@.skip(p as int) =~= enc_bytes(e.iface.name@) + (enc_bytes(
                    e.iface.payload@) + (enc_id(e.iimpl.iface_id) + (enc_bytes(
                    e.iimpl.payload@) + after))));
                lemma_suffix_prefix(s@, p as int, enc_bytes(e.iface.name@), enc_bytes(
                    e.iface.payload@) + (enc_id(e.iimpl.iface_id) + (enc_bytes(
                    e.iimpl.payload@) + after)));
                lemma_p_bytes_enc(s@, p as int, e.iface.name@);
                lemma_suffix_prefix(s@, p as int + 8 + e.iface.name@.len(), enc_bytes(
                    e.iface.payload@), enc_id(e.iimpl.iface_id) + (enc_bytes(
                    e.iimpl.payload@) + after));
                lemma_p_bytes_enc(s@, p as int + 8 + e.iface.name@.len(), e.iface.payload@);
                lemma_suffix_prefix(s@, p as int + 16 + e.iface.name@.len()
                    + e.iface.payload@.len(), enc_id(e.iimpl.iface_id), enc_bytes(
                    e.iimpl.payload@) + after);
                lemma_p_id_enc(s@, p as int + 16 + e.iface.name@.len()
                    + e.iface.payload@.len(), e.iimpl.iface_id);
                lemma_suffix_prefix(s@, p as int + 48 + e.iface.name@.len()
                    + e.iface.payload@.len(), enc_bytes(e.iimpl.payload@), after);
                lemma_p_bytes_enc(s@, p as int + 48 + e.iface.name@.len()
                    + e.iface.payload@.len(), e.iimpl.payload@);
            }
        }
        let (name, q1) = match parse_bytes(s, p) {
            Some(x) => x,
            None => {
                return None;
            },
        };
        let (ipayload, q2) = match parse_bytes(s, q1) {
            Some(x) => x,
            None => {
                return None;
            },
        };
        let (iface_id, q3) = match parse_id(s, q2) {
            Some(x) => x,
            None => {
                return None;
            },
        };
        let (mpayload, q4) = match parse_bytes(s, q3) {
            Some(x) => x,
            None => {
                return None;
            },
        };
        out.push(IfacePair {
            iface: Iface { name, payload: ipayload },
            iimpl: IfaceImpl { iface_id, payload: mpayload },
        });
        p = q4;
        k += 1;
    }
    proof {
        if tgt@ is Some {
            let t = tgt@->Some_0;
            assert(t.0.skip(k as int) =~= Seq::<IfacePair>::empty());
            assert(enc_each(t.0.skip(k as int), f) + t.1 =~= t.1);
        }
    }
    Some((out, p))
}

#[verifier::rlimit(100)]
fn parse_supplements(s: &Vec<u8>, pos: usize, tgt: Ghost<Option<(Seq<Supplement>,
    Seq<u8>)>>) -> (r: Option<(Vec<Supplement>, usize)>)
    requires
        pos <= s@.len(),
        tgt@ matches Some(t) ==> t.0.len() <= u64::MAX && s@.skip(pos as int) == enc_list(
            t.0, |x: Supplement| enc_supplement(x)) + t.1,
    ensures
        r matches Some(x) ==> pos <= x.1 <= s@.len(),
        tgt@ matches Some(t) ==> r matches Some(x) && x.0@.len() == t.0.len() && (forall|
            i: int| 0 <= i < t.0.len() ==> (#[trigger] x.0@[i]).payload@ == t.0[i].payload@)
            && s@.skip(x.1 as int) == t.1,
{
    let ghost f = |x: Supplement| enc_supplement(x);
    proof {
        if tgt@ is Some {
            let t = tgt@->Some_0;
            assert(s@.skip(pos as int) =~= enc_u64(t.0.len() as u64) + (enc_each(t.0, f)
                + t.1));
            lemma_suffix_prefix(s@, pos as int, enc_u64(t.0.len() as u64), enc_each(t.0, f)
                + t.1);
            lemma_p_u64_enc(s@, pos as int, t.0.len() as u64);
        }
    }
    let (n, p0) = match parse_u64(s, pos) {
        Some(x) => x,
        None => {
            return None;
        },
    };
    let mut out: Vec<Supplement> = Vec::new();
    proof {
        if tgt@ is Some {
            assert(tgt@->Some_0.0.skip(0) =~= tgt@->Some_0.0);
        }
    }
    let mut p: usize = p0;
    let mut k: u64 = 0;
    while k < n
        invariant
            pos <= p <= s@.len(),
            out@.len() == k,
            k <= n,
            f == (|x: Supplement| enc_supplement(x)),
            tgt@ matches Some(t) ==> n == t.0.len() && (forall|i: int| 0 <= i < k ==> (
                #[trigger] out@[i]).payload@ == t.0[i].payload@) && s@.skip(p as int)
                == enc_each(t.0.skip(k as int), f) + t.1,
        decreases n - k,
    {
        proof {
            if tgt@ is Some {
                let t = tgt@->Some_0;
                let rest = t.0.skip(k as int);
                assert(rest[0] == t.0[k as int]);
                assert(rest.drop_first() =~= t.0.skip(k as int + 1));
                assert(t.0[k as int].payload.len() == t.0[k as int].payload@.len());
                assert(s@.skip(p as int) =~= enc_bytes(t.0[k as int].payload@) + (enc_each(
                    t.0.skip(k as int + 1), f) + t.1));
                lemma_suffix_prefix(s@, p as int, enc_bytes(t.0[k as int].payload@),
                    enc_each(t.0.skip(k as int + 1), f) + t.1);
                lemma_p_bytes_enc(s@, p as int, t.0[k as int].payload@);
            }
        }
        let (payload, p2) = match parse_bytes(s, p) {
            Some(x) => x,
            None => {
                return None;
            },
        };
        out.push(Supplement { payload });
        p = p2;
        k += 1;
    }
    proof {
        if tgt@ is Some {
            let t = tgt@->Some_0;
            assert(t.0.skip(k as int) =~= Seq::<Supplement>::empty());
            assert(enc_each(t.0.skip(k as int), f) + t.1 =~= t.1);
        }
    }
    Some((out, p))
}

#[verifier::rlimit(100)]
fn parse_script_libs(s: &Vec<u8>, pos: usize, tgt: Ghost<Option<(Seq<ScriptLib>, Seq<u8>)>>)
    -> (r: Option<(Vec<ScriptLib>, usize)>)
    requires
        pos <= s@.len(),
        tgt@ matches Some(t) ==> t.0.len() <= u64::MAX && s@.skip(pos as int) == enc_list(
            t.0, |x: ScriptLib| enc_script_lib(x)) + t.1,
    ensures
        r matches Some(x) ==> pos <= x.1 <= s@.len(),
        tgt@ matches Some(t) ==> r matches Some(x) && x.0@.len() == t.0.len() && (forall|
            i: int| 0 <= i < t.0.len() ==> (#[trigger] x.0@[i]).payload@ == t.0[i].payload@)
            && s@.skip(x.1 as int) == t.1,
{
    let ghost f = |x: ScriptLib| enc_script_lib(x);
    proof {
        if tgt@ is Some {
            let t = tgt@->Some_0;
            assert(s@.skip(pos as int) =~= enc_u64(t.0.len() as u64) + (enc_each(t.0, f)
                + t.1));
            lemma_suffix_prefix(s@, pos as int, enc_u64(t.0.len() as u64), enc_each(t.0, f)
                + t.1);
            lemma_p_u64_enc(s@, pos as int, t.0.len() as u64);
        }
    }
    let (n, p0) = match parse_u64(s, pos) {
        Some(x) => x,
        None => {
            return None;
        },
    };
    let mut out: Vec<ScriptLib> = Vec::new();
    proof {
        if tgt@ is Some {
            assert(tgt@->Some_0.0.skip(0) =~= tgt@->Some_0.0);
        }
    }
    let mut p: usize = p0;
    let mut k: u64 = 0;
    while k < n
        invariant
            pos <= p <= s@.len(),
            out@.len() == k,
            k <= n,
            f == (|x: ScriptLib| enc_script_lib(x)),
            tgt@ matches Some(t) ==> n == t.0.len() && (forall|i: int| 0 <= i < k ==> (
                #[trigger] out@[i]).payload@ == t.0[i].payload@) && s@.skip(p as int)
                == enc_each(t.0.skip(k as int), f) + t.1,
        decreases n - k,
    {
        proof {
            if tgt@ is Some {
                let t = tgt@->Some_0;
                let rest = t.0.skip(k as int);
                assert(rest[0] == t.0[k as int]);
                assert(rest.drop_first() =~= t.0.skip(k as int + 1));
                assert(t.0[k as int].payload.len() == t.0[k as int].payload@.len());
                assert(s@.skip(p as int) =~= enc_bytes(t.0[k as int].payload@) + (enc_each(
                    t.0.skip(k as int + 1), f) + t.1));
                lemma_suffix_prefix(s@, p as int, enc_bytes(t.0[k as int].payload@),
                    enc_each(t.0.skip(k as int + 1), f) + t.1);
                lemma_p_bytes_enc(s@, p as int, t.0[k as int].payload@);
            }
        }
        let (payload, p2) = match parse_bytes(s, p) {
            Some(x) => x,
            None => {
                return None;
            },
        };
        out.push(ScriptLib { payload });
        p = p2;
        k += 1;
    }
    proof {
        if tgt@ is Some {
            let t = tgt@->Some_0;
            assert(t.0.skip(k as int) =~= Seq::<ScriptLib>::empty());
            assert(enc_each(t.0.skip(k as int), f) + t.1 =~= t.1);
        }
    }
    Some((out, p))
}

#[verifier::rlimit(100)]
fn parse_id_blob_pairs(s: &Vec<u8>, pos: usize, tgt: Ghost<Option<(Seq<(Id, Vec<u8>)>,
    Seq<u8>)>>) -> (r: Option<(Vec<(Id, Vec<u8>)>, usize)>)
    requires
        pos <= s@.len(),
        tgt@ matches Some(t) ==> t.0.len() <= u64::MAX && s@.skip(pos as int) == enc_list(
            t.0, |e: (Id, Vec<u8>)| enc_id(e.0) + enc_bytes(e.1@)) + t.1,
    ensures
        r matches Some(x) ==> pos <= x.1 <= s@.len(),
        tgt@ matches Some(t) ==> r matches Some(x) && x.0@.len() == t.0.len() && (forall|
            i: int| 0 <= i < t.0.len() ==> (#[trigger] x.0@[i]).0 == t.0[i].0 && x.0@[i].1@
            == t.0[i].1@) && s@.skip(x.1 as int) == t.1,
{
    let ghost f = |e: (Id, Vec<u8>)| enc_id(e.0) + enc_bytes(e.1@);
    proof {
        if tgt@ is Some {
            let t = tgt@->Some_0;
            assert(s@.skip(pos as int) =~= enc_u64(t.0.len() as u64) + (enc_each(t.0, f)
                + t.1));
            lemma_suffix_prefix(s@, pos as int, enc_u64(t.0.len() as u64), enc_each(t.0, f)
                + t.1);
            lemma_p_u64_enc(s@, pos as int, t.0.len() as u64);
        }
    }
    let (n, p0) = match parse_u64(s, pos) {
        Some(x) => x,
        None => {
            return None;
        },
    };
    let mut out: Vec<(Id, Vec<u8>)> = Vec::new();
    proof {
        if tgt@ is Some {
            assert(tgt@->Some_0.0.skip(0) =~= tgt@->Some_0.0);
        }
    }
    let mut p: usize = p0;
    let mut k: u64 = 0;
    while k < n
        invariant
            pos <= p <= s@.len(),
            out@.len() == k,
            k <= n,
            f == (|e: (Id, Vec<u8>)| enc_id(e.0) + enc_bytes(e.1@)),
            tgt@ matches Some(t) ==> n == t.0.len() && (forall|i: int| 0 <= i < k ==> (
                #[trigger] out@[i]).0 == t.0[i].0 && out@[i].1@ == t.0[i].1@) && s@.skip(
                p as int) == enc_each(t.0.skip(k as int), f) + t.1,
        decreases n - k,
    {
        proof {
            if tgt@ is Some {
                let t = tgt@->Some_0;
                let rest = t.0.skip(k as int);
                assert(rest[0] == t.0[k as int]);
                assert(rest.drop_first() =~= t.0.skip(k as int + 1));
                assert(t.0[k as int].1.len() == t.0[k as int].1@.len());
                assert(s@.skip(p as int) =~= enc_id(t.0[k as int].0) + (enc_bytes(
                    t.0[k as int].1@) + (enc_each(t.0.skip(k as int + 1), f) + t.1)));
                lemma_suffix_prefix(s@, p as int, enc_id(t.0[k as int].0), enc_bytes(
                    t.0[k as int].1@) + (enc_each(t.0.skip(k as int + 1), f) + t.1));
                lemma_p_id_enc(s@, p as int, t.0[k as int].0);
                lemma_suffix_prefix(s@, p as int + 32, enc_bytes(t.0[k as int].1@),
                    enc_each(t.0.skip(k as int + 1), f) + t.1);
                lemma_p_bytes_enc(s@, p as int + 32, t.0[k as int].1@);
            }
        }
        let (id, q1) = match parse_id(s, p) {
            Some(x) => x,
            None => {
                return None;
            },
        };
        let (blob, q2) = match parse_bytes(s, q1) {
            Some(x) => x,
            None => {
                return None;
            },
        };
        out.push((id, blob));
        p = q2;
        k += 1;
    }
    proof {
        if tgt@ is Some {
            let t = tgt@->Some_0;
            assert(t.0.skip(k as int) =~= Seq::<(Id, Vec<u8>)>::empty());
            assert(enc_each(t.0.skip(k as int), f) + t.1 =~= t.1);
        }
    }
    Some((out, p))
}

/// Parses a canonical binary body; fails on any malformation, including
/// trailing bytes.
fn parse_body(s: &Vec<u8>) -> (r: Option<Consignment>) {
    let (version, p1) = match parse_u8(s, 0) {
        Some(x) => x,
        None => {
            return None;
        },
    };
    let (transfer, p2) = match parse_bool(s, p1) {
        Some(x) => x,
        None => {
            return None;
        },
    };
    let (terminals, p3) = match parse_terminals(s, p2, Ghost(None)) {
        Some(x) => x,
        None => {
            return None;
        },
    };
    let (genesis, p4) = match parse_genesis(s, p3, Ghost(None)) {
        Some(x) => x,
        None => {
            return None;
        },
    };
    let (extensions, p5) = match parse_extensions(s, p4, Ghost(None)) {
        Some(x) => x,
        None => {
            return None;
        },
    };
    let (bundles, p6) = match parse_bundled_witnesses(s, p5, Ghost(None)) {
        Some(x) => x,
        None => {
            return None;
        },
    };
    let (schema_payload, p7) = match parse_bytes(s, p6) {
        Some(x) => x,
        None => {
            return None;
        },
    };
    let (ifaces, p8) = match parse_iface_pairs(s, p7, Ghost(None)) {
        Some(x) => x,
        None => {
            return None;
        },
    };
    let (supplements, p9) = match parse_supplements(s, p8, Ghost(None)) {
        Some(x) => x,
        None => {
            return None;
        },
    };
    let (types_payload, p10) = match parse_bytes(s, p9) {
        Some(x) => x,
        None => {
            return None;
        },
    };
    let (scripts, p11) = match parse_script_libs(s, p10, Ghost(None)) {
        Some(x) => x,
        None => {
            return None;
        },
    };
    let (attachments, p12) = match parse_id_blob_pairs(s, p11, Ghost(None)) {
        Some(x) => x,
        None => {
            return None;
        },
    };
    let (signatures, p13) = match parse_id_blob_pairs(s, p12, Ghost(None)) {
        Some(x) => x,
        None => {
            return None;
        },
    };
    if p13 != s.len() {
        return None;
    }
    Some(Consignment {
        version,
        transfer,
        terminals,
        genesis,
        extensions,
        bundles,
        schema: Schema { payload: schema_payload },
        ifaces,
        supplements,
        types: TypeSystem { payload: types_payload },
        scripts,
        attachments,
        signatures,
    })
}

// -------------------------------------------------------- well-formedness

proof fn lemma_id_lt_trans(a: Id, b: Id, c: Id)
    requires
        a.lt_spec(b),
        b.lt_spec(c),
    ensures
        a.lt_spec(c),
{
}

proof fn lemma_adjacent_range<V>(s: Seq<(Id, V)>, i: int, j: int)
    requires
        forall|x: int| 0 <= x < s.len() - 1 ==> (#[trigger] s[x]).0.lt_spec(s[x + 1].0),
        0 <= i < j < s.len(),
    ensures
        s[i].0.lt_spec(s[j].0),
    decreases j - i,
{
    if j == i + 1 {
        assert(s[i].0.lt_spec(s[i + 1].0));
    } else {
        lemma_adjacent_range(s, i, j - 1);
        assert(s[j - 1].0.lt_spec(s[j - 1 + 1].0));
        lemma_id_lt_trans(s[i].0, s[j - 1].0, s[j].0);
    }
}

fn check_keys_sorted<V>(v: &Vec<(Id, V)>) -> (r: bool)
    ensures
        r == keys_sorted(v@),
{
    if v.len() == 0 {
        return true;
    }
    let mut k: usize = 0;
    while k < v.len() - 1
        invariant
            v@.len() >= 1,
            k < v@.len(),
            forall|x: int| 0 <= x < k ==> (#[trigger] v@[x]).0.lt_spec(v@[x + 1].0),
        decreases v.len() - k,
    {
        if !v[k].0.lt(&v[k + 1].0) {
            proof {
                assert(!keys_sorted(v@)) by {
                    assert(!v@[k as int].0.lt_spec(v@[k as int + 1].0));
                }
            }
            return false;
        }
        k += 1;
    }
    proof {
        assert forall|i: int, j: int| 0 <= i < j < v@.len() implies (
            #[trigger] v@[i]).0.lt_spec((#[trigger] v@[j]).0) by {
            lemma_adjacent_range(v@, i, j);
        }
    }
    true
}

/// Checks structural well-formedness.
pub fn is_well_formed(c: &Consignment) -> (r: bool)
    ensures
        r == c.wf(),
{
    if c.terminals.len() > MAX_TERMINALS {
        return false;
    }
    if !check_keys_sorted(&c.terminals) {
        return false;
    }
    if c.ifaces.len() > MAX_IFACES {
        return false;
    }
    if c.supplements.len() > MAX_SUPPLEMENTS {
        return false;
    }
    if c.scripts.len() > MAX_SCRIPT_LIBS {
        return false;
    }
    if c.attachments.len() > MAX_ATTACHMENTS {
        return false;
    }
    if !check_keys_sorted(&c.attachments) {
        return false;
    }
    if c.signatures.len() > MAX_SIGNATURES {
        return false;
    }
    if !check_keys_sorted(&c.signatures) {
        return false;
    }
    true
}

// ------------------------------------------------------------- the envelope

/// Why a decode was rejected.
#[derive(Clone, Copy, PartialEq, Eq, Structural, Debug)]
pub enum ArmorError {
    /// The input does not parse as an armored consignment.
    Malformed,
    /// The body does not hash to the checksum the header declares.
    ChecksumMismatch,
    /// The body's computed identifier differs from the header's.
    IdMismatch,
    /// The declared consignment type contradicts the body's transfer flag.
    TypeMismatch,
    /// The decoded container violates a structural bound.
    Structure,
}

/// Offset of the consignment identifier's hex spelling in the armored text.
pub const OFF_ID: usize = 36;
/// Offset of the checksum's hex spelling.
pub const OFF_CHECKSUM: usize = 290;
/// Offset of the body's hex spelling; the body runs to the end plate.
pub const OFF_BODY: usize = 356;
/// Length of the end plate.
pub const SUFFIX_LEN: usize = 31;

/// The header checksum agrees with the body it covers.
pub open spec fn checksum_ok(s: Seq<u8>) -> bool {
    &&& s.len() >= OFF_BODY + SUFFIX_LEN
    &&& match (unhex_id_at(s, OFF_CHECKSUM as int), unhex_bytes(s.subrange(OFF_BODY as int,
        s.len() - SUFFIX_LEN))) {
        (Some(ck), Some(body)) => ck == digest_id_spec(TAG_CHECKSUM, body),
        _ => false,
    }
}

/// Builds an identifier from a decoded 32-byte field.
fn id_from_vec(v: &Vec<u8>) -> (r: Id)
    requires
        v@.len() == 32,
    ensures
        r == id_from_bytes(v@),
{
    let w0: u64 = ((v[0] as u64) << 56) | ((v[1] as u64) << 48) | ((v[2] as u64) << 40)
        | ((v[3] as u64) << 32) | ((v[4] as u64) << 24) | ((v[5] as u64) << 16)
        | ((v[6] as u64) << 8) | (v[7] as u64);
    let w1: u64 = ((v[8] as u64) << 56) | ((v[9] as u64) << 48) | ((v[10] as u64) << 40)
        | ((v[11] as u64) << 32) | ((v[12] as u64) << 24) | ((v[13] as u64) << 16)
        | ((v[14] as u64) << 8) | (v[15] as u64);
    let w2: u64 = ((v[16] as u64) << 56) | ((v[17] as u64) << 48) | ((v[18] as u64) << 40)
        | ((v[19] as u64) << 32) | ((v[20] as u64) << 24) | ((v[21] as u64) << 16)
        | ((v[22] as u64) << 8) | (v[23] as u64);
    let w3: u64 = ((v[24] as u64) << 56) | ((v[25] as u64) << 48) | ((v[26] as u64) << 40)
        | ((v[27] as u64) << 32) | ((v[28] as u64) << 24) | ((v[29] as u64) << 16)
        | ((v[30] as u64) << 8) | (v[31] as u64);
    proof {
        assert forall|j: int| 0 <= j < 8 implies v@.subrange(0, 8)[j] == v@[j] by {}
        assert forall|j: int| 0 <= j < 8 implies v@.subrange(8, 16)[j] == v@[8 + j] by {}
        assert forall|j: int| 0 <= j < 8 implies v@.subrange(16, 24)[j] == v@[16 + j] by {}
        assert forall|j: int| 0 <= j < 8 implies v@.subrange(24, 32)[j] == v@[24 + j] by {}
    }
    Id { w0, w1, w2, w3 }
}

/// Appends an identifier's 64-character hex spelling.
fn push_id_hex(buf: &mut Vec<u8>, id: &Id)
    ensures
        final(buf)@ == old(buf)@ + hex_of(id_bytes(*id)),
{
    let mut tmp: Vec<u8> = Vec::new();
    push_id(&mut tmp, id);
    push_hex(buf, &tmp);
}

impl Consignment {
    /// Encodes the consignment as armored text: the begin plate, the header
    /// block (identifier, version, declared type, contract, schema, body
    /// checksum), a blank line, the hex body, and the end plate. The header
    /// identifier is exactly the consignment's commitment identifier.
    /// Encodes the consignment as its armored text: begin plate, the
    /// commitment identifier, the version, declared type, contract, schema
    /// and body-checksum headers, a blank line, the hex body and the end
    /// plate — every byte of the output is fixed by `armored_text`.
    pub fn armor(&self) -> (r: Vec<u8>)
        ensures
            r@ == armored_text(*self),
            unhex_id_at(r@, OFF_ID as int) == Some(self.commit_id_spec()),
    {
        let cid = self.consignment_id();
        let mut body: Vec<u8> = Vec::new();
        write_body(&mut body, self);
        let ck = digest_id(TAG_CHECKSUM, &body);
        let ctid = self.contract_id();
        let sid = self.schema_id();
        let r = armor_assemble(self, &cid, &body, &ck, &ctid, &sid);
        proof {
            lemma_armored_header_id(*self);
        }
        r
    }
}

/// Appends the version, type, contract and schema header lines.
#[verifier::rlimit(100)]
fn armor_mid_exec(out: &mut Vec<u8>, c: &Consignment, ctid: &Id, sid: &Id)
    requires
        *ctid == contract_id_spec(c.genesis),
        *sid == schema_id_spec(c.schema),
    ensures
        final(out)@ == old(out)@ + armored_mid(*c),
{
    let l1: [u8; 10] = [10, 86, 101, 114, 115, 105, 111, 110, 58, 32];
    let l2: [u8; 7] = [10, 84, 121, 112, 101, 58, 32];
    let lt: [u8; 8] = [116, 114, 97, 110, 115, 102, 101, 114];
    let lc: [u8; 8] = [99, 111, 110, 116, 114, 97, 99, 116];
    let l3: [u8; 11] = [10, 67, 111, 110, 116, 114, 97, 99, 116, 58, 32];
    let l4: [u8; 9] = [10, 83, 99, 104, 101, 109, 97, 58, 32];
    proof {
        assert(l1@ =~= lit_version_hdr());
        assert(l2@ =~= lit_type_hdr());
        assert(lt@ =~= lit_transfer_word());
        assert(lc@ =~= lit_contract_word());
        assert(l3@ =~= lit_contract_hdr());
        assert(l4@ =~= lit_schema_hdr());
    }
    push_lit(out, &l1);
    let mut vb: Vec<u8> = Vec::new();
    vb.push(c.version);
    proof {
        assert(vb@ =~= seq![c.version]);
    }
    push_hex(out, &vb);
    push_lit(out, &l2);
    if c.transfer {
        push_lit(out, &lt);
    } else {
        push_lit(out, &lc);
    }
    push_lit(out, &l3);
    push_id_hex(out, ctid);
    push_lit(out, &l4);
    push_id_hex(out, sid);
    proof {
        assert(out@ =~= old(out)@ + armored_mid(*c));
    }
}

/// Appends the checksum header, the blank line, the hex body and the end
/// plate.
#[verifier::rlimit(100)]
fn armor_foot_exec(out: &mut Vec<u8>, body: &Vec<u8>, ck: &Id, bs: Ghost<Seq<u8>>)
    requires
        body@ == bs@,
        *ck == digest_id_spec(TAG_CHECKSUM, bs@),
    ensures
        final(out)@ == old(out)@ + (lit_checksum_hdr() + hex_of(id_bytes(digest_id_spec(
            TAG_CHECKSUM, bs@))) + lit_blank() + hex_of(bs@) + lit_end()),
{
    let l5: [u8; 15] = [10, 67, 104, 101, 99, 107, 45, 83, 72, 65, 50, 53, 54, 58, 32];
    let l6: [u8; 2] = [10, 10];
    let l7: [u8; 31] = [10, 45, 45, 45, 45, 45, 69, 78, 68, 32, 82, 71, 66, 32, 67, 79, 78,
        83, 73, 71, 78, 77, 69, 78, 84, 45, 45, 45, 45, 45, 10];
    proof {
        assert(l5@ =~= lit_checksum_hdr());
        assert(l6@ =~= lit_blank());
        assert(l7@ =~= lit_end());
    }
    push_lit(out, &l5);
    push_id_hex(out, ck);
    push_lit(out, &l6);
    push_hex(out, body);
    push_lit(out, &l7);
    proof {
        assert(out@ =~= old(out)@ + (lit_checksum_hdr() + hex_of(id_bytes(digest_id_spec(
            TAG_CHECKSUM, bs@))) + lit_blank() + hex_of(bs@) + lit_end()));
    }
}

/// Appends everything of the armored text that follows the identifier.
#[verifier::rlimit(100)]
fn armor_tail(out: &mut Vec<u8>, c: &Consignment, body: &Vec<u8>, ck: &Id, ctid: &Id,
    sid: &Id)
    requires
        body@ == enc_body(*c),
        *ck == digest_id_spec(TAG_CHECKSUM, enc_body(*c)),
        *ctid == contract_id_spec(c.genesis),
        *sid == schema_id_spec(c.schema),
    ensures
        final(out)@ == old(out)@ + armored_tail(*c),
{
    armor_mid_exec(out, c, ctid, sid);
    armor_foot_exec(out, body, ck, Ghost(enc_body(*c)));
    proof {
        assert(out@ =~= old(out)@ + armored_tail(*c));
    }
}

/// Assembles the armored text from the precomputed identifier, body and
/// header identifiers.
#[verifier::rlimit(100)]
fn armor_assemble(c: &Consignment, cid: &Id, body: &Vec<u8>, ck: &Id, ctid: &Id, sid: &Id)
    -> (r: Vec<u8>)
    requires
        *cid == c.commit_id_spec(),
        body@ == enc_body(*c),
        *ck == digest_id_spec(TAG_CHECKSUM, enc_body(*c)),
        *ctid == contract_id_spec(c.genesis),
        *sid == schema_id_spec(c.schema),
    ensures
        r@ == armored_text(*c),
{
    let l0: [u8; 36] = [45, 45, 45, 45, 45, 66, 69, 71, 73, 78, 32, 82, 71, 66, 32, 67,
        79, 78, 83, 73, 71, 78, 77, 69, 78, 84, 45, 45, 45, 45, 45, 10, 73, 100, 58, 32];
    let mut out: Vec<u8> = Vec::new();
    proof {
        assert(l0@ =~= lit_begin());
    }
    push_lit(&mut out, &l0);
    push_id_hex(&mut out, cid);
    armor_tail(&mut out, c, body, ck, ctid, sid);
    proof {
        assert(out@ =~= armored_text(*c));
    }
    out
}

/// Parses and checks the fixed-offset header block: begin plate, the
/// identifier, version and type fields, contract/schema headers, checksum
/// and the end plate. Returns the header identifier, the header checksum
/// and the declared transfer flag.
#[verifier::rlimit(100)]
fn parse_header(s: &Vec<u8>) -> (r: Result<(Id, Id, bool), ArmorError>)
    ensures
        match r {
            Ok(h) => s@.len() >= 387 && unhex_id_at(s@, OFF_ID as int) == Some(h.0)
                && unhex_id_at(s@, OFF_CHECKSUM as int) == Some(h.1) && (h.2 <==> s@[119]
                == 116),
            Err(_) => true,
        },
{
    if s.len() < 387 {
        return Err(ArmorError::Malformed);
    }
    if !expect_lit(s, 0, &[45u8, 45, 45, 45, 45, 66, 69, 71, 73, 78, 32, 82, 71, 66, 32, 67, 79, 78, 83, 73, 71, 78, 77, 69, 78, 84, 45, 45, 45, 45, 45, 10, 73, 100, 58, 32]) {
        return Err(ArmorError::Malformed);
    }
    let idv = match parse_hex_region(s, 36, 100) {
        Some(v) => v,
        None => {
            return Err(ArmorError::Malformed);
        },
    };
    proof {
        lemma_unhex_len(s@.subrange(36, 100));
    }
    let header_id = id_from_vec(&idv);
    if !expect_lit(s, 100, &[10u8, 86, 101, 114, 115, 105, 111, 110, 58, 32]) {
        return Err(ArmorError::Malformed);
    }
    let _ver = match parse_hex_region(s, 110, 112) {
        Some(v) => v,
        None => {
            return Err(ArmorError::Malformed);
        },
    };
    if !expect_lit(s, 112, &[10u8, 84, 121, 112, 101, 58, 32]) {
        return Err(ArmorError::Malformed);
    }
    let declared_transfer: bool = if expect_lit(s, 119, &[116u8, 114, 97, 110, 115, 102, 101, 114]) {
        proof {
            assert(s@.subrange(119, 127)[0] == s@[119]);
        }
        true
    } else if expect_lit(s, 119, &[99u8, 111, 110, 116, 114, 97, 99, 116]) {
        proof {
            assert(s@.subrange(119, 127)[0] == s@[119]);
        }
        false
    } else {
        return Err(ArmorError::Malformed);
    };
    if !expect_lit(s, 127, &[10u8, 67, 111, 110, 116, 114, 97, 99, 116, 58, 32]) {
        return Err(ArmorError::Malformed);
    }
    let _ct = match parse_hex_region(s, 138, 202) {
        Some(v) => v,
        None => {
            return Err(ArmorError::Malformed);
        },
    };
    if !expect_lit(s, 202, &[10u8, 83, 99, 104, 101, 109, 97, 58, 32]) {
        return Err(ArmorError::Malformed);
    }
    let _sc = match parse_hex_region(s, 211, 275) {
        Some(v) => v,
        None => {
            return Err(ArmorError::Malformed);
        },
    };
    if !expect_lit(s, 275, &[10u8, 67, 104, 101, 99, 107, 45, 83, 72, 65, 50, 53, 54, 58, 32]) {
        return Err(ArmorError::Malformed);
    }
    let ckv = match parse_hex_region(s, 290, 354) {
        Some(v) => v,
        None => {
            return Err(ArmorError::Malformed);
        },
    };
    proof {
        lemma_unhex_len(s@.subrange(290, 354));
    }
    let header_ck = id_from_vec(&ckv);
    if !expect_lit(s, 354, &[10u8, 10]) {
        return Err(ArmorError::Malformed);
    }
    let suffix_at = s.len() - 31;
    if !expect_lit(s, suffix_at, &[10u8, 45, 45, 45, 45, 45, 69, 78, 68, 32, 82, 71, 66, 32, 67, 79, 78, 83, 73, 71, 78, 77, 69, 78, 84, 45, 45, 45, 45, 45, 10]) {
        return Err(ArmorError::Malformed);
    }
    Ok((header_id, header_ck, declared_transfer))
}

/// Decodes armored text. A success carries the identifier stamped in the
/// header (which the body's recomputed identifier was checked against), a
/// checksum that covers the body, a declared type matching the container's
/// transfer flag, and a structurally well-formed container; any
/// disagreement is rejected.
#[verifier::rlimit(100)]
pub fn unarmor(s: &Vec<u8>) -> (r: Result<Consignment, ArmorError>)
    ensures
        match r {
            Ok(c) => unhex_id_at(s@, OFF_ID as int) == Some(c.commit_id_spec())
                && checksum_ok(s@) && c.wf() && 119 < s@.len() && (c.transfer <==> s@[119]
                == 116),
            Err(_) => true,
        },
{
    let h = match parse_header(s) {
        Ok(h) => h,
        Err(e) => {
            return Err(e);
        },
    };
    let header_id = h.0;
    let header_ck = h.1;
    let declared_transfer = h.2;
    let suffix_at = s.len() - 31;
    let body = match parse_hex_region(s, 356, suffix_at) {
        Some(v) => v,
        None => {
            return Err(ArmorError::Malformed);
        },
    };
    let c = match parse_body(&body) {
        Some(c) => c,
        None => {
            return Err(ArmorError::Malformed);
        },
    };
    if !is_well_formed(&c) {
        return Err(ArmorError::Structure);
    }
    let computed_ck = digest_id(TAG_CHECKSUM, &body);
    if computed_ck != header_ck {
        return Err(ArmorError::ChecksumMismatch);
    }
    let cid = c.consignment_id();
    if cid != header_id {
        return Err(ArmorError::IdMismatch);
    }
    if c.transfer != declared_transfer {
        return Err(ArmorError::TypeMismatch);
    }
    proof {
        lemma_id_bytes_roundtrip(cid);
    }
    Ok(c)
}

/// Round-trip identity law: encoding stamps the consignment's identifier
/// into the header, and any successful decode returns a container whose
/// recomputed identifier equals the stamped one; so decoding an encoded
/// consignment can only yield a container with the same identity.
pub proof fn lemma_round_trip_identity(c: Consignment, s: Seq<u8>, d: Consignment)
    requires
        unhex_id_at(s, OFF_ID as int) == Some(c.commit_id_spec()),
        unhex_id_at(s, OFF_ID as int) == Some(d.commit_id_spec()),
    ensures
        d.commit_id_spec() == c.commit_id_spec(),
{
}


} // verus!
