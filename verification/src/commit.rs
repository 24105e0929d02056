//! Content-addressed identity: tagged digests, concealed projections,
//! disclose hashes and the fixed-order consignment commitment.
//!
//! Identity never hashes revealed seals: every identity-relevant encoding
//! first conceals each seal to its commitment, so revealing a seal later can
//! never change an already-shared identifier.

use vstd::prelude::*;

use crate::ids::{id_from_bytes, Id, SecretSeal};
use crate::codec::{enc_bytes, enc_id, enc_u16, enc_u64, push_bytes, push_id, push_u16,
    push_u64};
use crate::model::{enc_each, enc_extension, enc_genesis, enc_graph_seal, enc_iface,
    enc_iface_impl, enc_list, enc_opout, enc_pub_witness, enc_schema, enc_script_lib,
    enc_state, enc_supplement, enc_type_system, write_extension, write_genesis,
    write_graph_seal, write_opouts, write_state, Assignment, Bundle, BundledWitness,
    Extension, Genesis, GraphSeal, Iface, IfaceImpl, Schema, ScriptLib, Seal, Supplement,
    Transition, TypeSystem};

verus! {

// ------------------------------------------------------------------ digests

/// The tagged SHA-256 digest of a byte string. The tag separates the hashing
/// domains of the different record kinds; the result depends on the tag and
/// the bytes alone.
pub uninterp spec fn tagged_sha256(tag: u8, data: Seq<u8>) -> Seq<u8>;

/// Relies on commit_verify's `DigestExt` for `Sha256` (`from_tag`,
/// `input_raw`, `finish`): a tagged SHA-256 engine fed with `data`, whose
/// 32-byte digest is a function of the tag and the data alone.
#[verifier::external_body]
fn tagged_digest(tag: u8, data: &Vec<u8>) -> (r: [u8; 32])
    ensures
        r@ == tagged_sha256(tag, data@),
{
    let mut engine = <commit_verify::Sha256 as commit_verify::DigestExt>::from_tag([tag]);
    commit_verify::DigestExt::input_raw(&mut engine, data.as_slice());
    commit_verify::DigestExt::finish(engine)
}

/// The identifier naming the tagged digest of `data`.
pub open spec fn digest_id_spec(tag: u8, data: Seq<u8>) -> Id {
    id_from_bytes(tagged_sha256(tag, data))
}

/// Digests a serialized record and packs the digest into an identifier.
pub fn digest_id(tag: u8, data: &Vec<u8>) -> (r: Id)
    ensures
        r == digest_id_spec(tag, data@),
{
    let d = tagged_digest(tag, data);
    Id::from_array(d)
}

// Domain-separation tags, one per record kind.
pub const TAG_SEAL: u8 = 1;
pub const TAG_CONTRACT: u8 = 2;
pub const TAG_GENESIS_DISCLOSE: u8 = 3;
pub const TAG_EXTENSION: u8 = 4;
pub const TAG_EXTENSION_DISCLOSE: u8 = 5;
pub const TAG_TRANSITION: u8 = 6;
pub const TAG_BUNDLE: u8 = 7;
pub const TAG_WITNESS_DISCLOSE: u8 = 8;
pub const TAG_IFACE: u8 = 9;
pub const TAG_IFACE_IMPL: u8 = 10;
pub const TAG_SUPPLEMENT: u8 = 11;
pub const TAG_SCRIPT_LIB: u8 = 12;
pub const TAG_TYPE_SYSTEM: u8 = 13;
pub const TAG_SCHEMA: u8 = 14;
pub const TAG_CONSIGNMENT: u8 = 15;
pub const TAG_CHECKSUM: u8 = 16;

// ------------------------------------------------------ concealed encodings

/// The commitment a revealed seal conceals to.
pub open spec fn seal_secret_spec(g: GraphSeal) -> SecretSeal {
    digest_id_spec(TAG_SEAL, enc_graph_seal(g))
}

/// The concealed form of a seal: a concealed seal is already its own
/// commitment, a revealed one is hashed down to it.
pub open spec fn conceal_seal_spec(s: Seal) -> SecretSeal {
    match s {
        Seal::Concealed(id) => id,
        Seal::Revealed(g) => seal_secret_spec(g),
    }
}

/// Computes the commitment of a revealed seal.
pub fn seal_secret(g: &GraphSeal) -> (r: SecretSeal)
    ensures
        r == seal_secret_spec(*g),
{
    let mut buf: Vec<u8> = Vec::new();
    write_graph_seal(&mut buf, g);
    digest_id(TAG_SEAL, &buf)
}

/// Conceals a seal.
pub fn conceal_seal(s: &Seal) -> (r: SecretSeal)
    ensures
        r == conceal_seal_spec(*s),
{
    match s {
        Seal::Concealed(id) => *id,
        Seal::Revealed(g) => seal_secret(g),
    }
}

/// An assignment with its seal concealed: the identity-relevant projection.
pub open spec fn enc_assignment_concealed(a: Assignment) -> Seq<u8> {
    enc_u16(a.ty) + enc_id(conceal_seal_spec(a.seal)) + enc_state(a.state)
}

pub fn write_assignment_concealed(buf: &mut Vec<u8>, a: &Assignment)
    ensures
        final(buf)@ == old(buf)@ + enc_assignment_concealed(*a),
{
    push_u16(buf, a.ty);
    let s = conceal_seal(&a.seal);
    push_id(buf, &s);
    write_state(buf, &a.state);
    proof {
        assert(buf@ =~= old(buf)@ + enc_assignment_concealed(*a));
    }
}

/// A transition with every assignment's seal concealed.
pub open spec fn enc_transition_concealed(t: Transition) -> Seq<u8> {
    enc_id(t.contract_id) + enc_u16(t.transition_type)
        + enc_list(t.inputs@, |o: crate::model::Opout| enc_opout(o))
        + enc_list(t.assignments@, |a: Assignment| enc_assignment_concealed(a))
        + enc_bytes(t.payload@)
}

fn write_assignments_concealed(buf: &mut Vec<u8>, v: &Vec<Assignment>)
    ensures
        final(buf)@ == old(buf)@ + enc_list(v@, |a: Assignment| enc_assignment_concealed(a)),
{
    push_u64(buf, v.len() as u64);
    let ghost fa = |a: Assignment| enc_assignment_concealed(a);
    let ghost pre = buf@;
    let mut k: usize = 0;
    while k < v.len()
        invariant
            k <= v.len(),
            buf@ == pre + enc_each(v@.subrange(0, k as int), fa),
            fa == (|a: Assignment| enc_assignment_concealed(a)),
        decreases v.len() - k,
    {
        write_assignment_concealed(buf, &v[k]);
        proof {
            crate::model::lemma_enc_each_push(v@.subrange(0, k as int), fa, v@[k as int]);
            assert(v@.subrange(0, k as int).push(v@[k as int])
                =~= v@.subrange(0, k as int + 1));
            assert(buf@ =~= pre + enc_each(v@.subrange(0, k as int + 1), fa));
        }
        k += 1;
    }
    proof {
        assert(v@.subrange(0, v@.len() as int) =~= v@);
        assert(buf@ =~= old(buf)@ + enc_list(v@, fa));
    }
}

pub fn write_transition_concealed(buf: &mut Vec<u8>, t: &Transition)
    ensures
        final(buf)@ == old(buf)@ + enc_transition_concealed(*t),
{
    push_id(buf, &t.contract_id);
    push_u16(buf, t.transition_type);
    write_opouts(buf, &t.inputs);
    write_assignments_concealed(buf, &t.assignments);
    push_bytes(buf, &t.payload);
    proof {
        assert(buf@ =~= old(buf)@ + enc_transition_concealed(*t));
    }
}

/// A bundle's identity-relevant projection.
pub open spec fn enc_bundle_concealed(b: Bundle) -> Seq<u8> {
    enc_list(b.transitions@, |t: Transition| enc_transition_concealed(t))
}

fn write_transitions_concealed(buf: &mut Vec<u8>, v: &Vec<Transition>)
    ensures
        final(buf)@ == old(buf)@ + enc_list(v@, |t: Transition| enc_transition_concealed(t)),
{
    push_u64(buf, v.len() as u64);
    let ghost ft = |t: Transition| enc_transition_concealed(t);
    let ghost pre = buf@;
    let mut k: usize = 0;
    while k < v.len()
        invariant
            k <= v.len(),
            buf@ == pre + enc_each(v@.subrange(0, k as int), ft),
            ft == (|t: Transition| enc_transition_concealed(t)),
        decreases v.len() - k,
    {
        write_transition_concealed(buf, &v[k]);
        proof {
            crate::model::lemma_enc_each_push(v@.subrange(0, k as int), ft, v@[k as int]);
            assert(v@.subrange(0, k as int).push(v@[k as int])
                =~= v@.subrange(0, k as int + 1));
            assert(buf@ =~= pre + enc_each(v@.subrange(0, k as int + 1), ft));
        }
        k += 1;
    }
    proof {
        assert(v@.subrange(0, v@.len() as int) =~= v@);
        assert(buf@ =~= old(buf)@ + enc_list(v@, ft));
    }
}

pub fn write_bundle_concealed(buf: &mut Vec<u8>, b: &Bundle)
    ensures
        final(buf)@ == old(buf)@ + enc_bundle_concealed(*b),
{
    write_transitions_concealed(buf, &b.transitions);
}

/// A bundled witness' identity-relevant projection.
pub open spec fn enc_bundled_witness_concealed(bw: BundledWitness) -> Seq<u8> {
    enc_pub_witness(bw.pub_witness) + enc_list(bw.bundles@, |b: Bundle| enc_bundle_concealed(b))
}

fn write_bundles_concealed(buf: &mut Vec<u8>, v: &Vec<Bundle>)
    ensures
        final(buf)@ == old(buf)@ + enc_list(v@, |b: Bundle| enc_bundle_concealed(b)),
{
    push_u64(buf, v.len() as u64);
    let ghost fb = |b: Bundle| enc_bundle_concealed(b);
    let ghost pre = buf@;
    let mut k: usize = 0;
    while k < v.len()
        invariant
            k <= v.len(),
            buf@ == pre + enc_each(v@.subrange(0, k as int), fb),
            fb == (|b: Bundle| enc_bundle_concealed(b)),
        decreases v.len() - k,
    {
        write_bundle_concealed(buf, &v[k]);
        proof {
            crate::model::lemma_enc_each_push(v@.subrange(0, k as int), fb, v@[k as int]);
            assert(v@.subrange(0, k as int).push(v@[k as int])
                =~= v@.subrange(0, k as int + 1));
            assert(buf@ =~= pre + enc_each(v@.subrange(0, k as int + 1), fb));
        }
        k += 1;
    }
    proof {
        assert(v@.subrange(0, v@.len() as int) =~= v@);
        assert(buf@ =~= old(buf)@ + enc_list(v@, fb));
    }
}

pub fn write_bundled_witness_concealed(buf: &mut Vec<u8>, bw: &BundledWitness)
    ensures
        final(buf)@ == old(buf)@ + enc_bundled_witness_concealed(*bw),
{
    push_id(buf, &bw.pub_witness.witness_id);
    write_bundles_concealed(buf, &bw.bundles);
    proof {
        assert(buf@ =~= old(buf)@ + enc_bundled_witness_concealed(*bw));
    }
}

// -------------------------------------------------------------- derived ids

/// The contract identifier derived from a genesis' content.
pub open spec fn contract_id_v(g: crate::model::GenesisV) -> Id {
    digest_id_spec(TAG_CONTRACT, crate::model::enc_genesis_v(g))
}

pub open spec fn contract_id_spec(g: Genesis) -> Id {
    contract_id_v(g@)
}

pub open spec fn genesis_disclose_spec(g: Genesis) -> Id {
    digest_id_spec(TAG_GENESIS_DISCLOSE, enc_genesis(g))
}

pub open spec fn extension_id_spec(x: Extension) -> Id {
    digest_id_spec(TAG_EXTENSION, enc_extension(x))
}

pub open spec fn extension_disclose_spec(x: Extension) -> Id {
    digest_id_spec(TAG_EXTENSION_DISCLOSE, enc_extension(x))
}

pub open spec fn transition_id_spec(t: Transition) -> Id {
    digest_id_spec(TAG_TRANSITION, enc_transition_concealed(t))
}

pub open spec fn bundle_id_spec(b: Bundle) -> Id {
    digest_id_spec(TAG_BUNDLE, enc_bundle_concealed(b))
}

pub open spec fn witness_disclose_spec(bw: BundledWitness) -> Id {
    digest_id_spec(TAG_WITNESS_DISCLOSE, enc_bundled_witness_concealed(bw))
}

pub open spec fn iface_id_spec(i: Iface) -> Id {
    digest_id_spec(TAG_IFACE, enc_iface(i))
}

pub open spec fn impl_id_spec(i: IfaceImpl) -> Id {
    digest_id_spec(TAG_IFACE_IMPL, enc_iface_impl(i))
}

pub open spec fn suppl_id_spec(s: Supplement) -> Id {
    digest_id_spec(TAG_SUPPLEMENT, enc_supplement(s))
}

pub open spec fn lib_id_spec(l: ScriptLib) -> Id {
    digest_id_spec(TAG_SCRIPT_LIB, enc_script_lib(l))
}

pub open spec fn type_system_id_spec(t: TypeSystem) -> Id {
    digest_id_spec(TAG_TYPE_SYSTEM, enc_type_system(t))
}

/// The schema identifier derived from a schema's content.
pub open spec fn schema_id_v(payload: Seq<u8>) -> Id {
    digest_id_spec(TAG_SCHEMA, enc_bytes(payload))
}

pub open spec fn schema_id_spec(s: Schema) -> Id {
    schema_id_v(s@)
}

/// Derives the contract identifier from a genesis.
pub fn contract_id_of(g: &Genesis) -> (r: Id)
    ensures
        r == contract_id_spec(*g),
{
    let mut buf: Vec<u8> = Vec::new();
    write_genesis(&mut buf, g);
    digest_id(TAG_CONTRACT, &buf)
}

/// The disclose hash of a genesis: its commitment-stable projection.
pub fn genesis_disclose(g: &Genesis) -> (r: Id)
    ensures
        r == genesis_disclose_spec(*g),
{
    let mut buf: Vec<u8> = Vec::new();
    write_genesis(&mut buf, g);
    digest_id(TAG_GENESIS_DISCLOSE, &buf)
}

/// The operation identifier of an extension.
pub fn extension_id_of(x: &Extension) -> (r: Id)
    ensures
        r == extension_id_spec(*x),
{
    let mut buf: Vec<u8> = Vec::new();
    write_extension(&mut buf, x);
    digest_id(TAG_EXTENSION, &buf)
}

/// The disclose hash of an extension.
pub fn extension_disclose(x: &Extension) -> (r: Id)
    ensures
        r == extension_disclose_spec(*x),
{
    let mut buf: Vec<u8> = Vec::new();
    write_extension(&mut buf, x);
    digest_id(TAG_EXTENSION_DISCLOSE, &buf)
}

/// The operation identifier of a transition: a digest of its concealed
/// projection, so revealing seals never changes it.
pub fn transition_id_of(t: &Transition) -> (r: Id)
    ensures
        r == transition_id_spec(*t),
{
    let mut buf: Vec<u8> = Vec::new();
    write_transition_concealed(&mut buf, t);
    digest_id(TAG_TRANSITION, &buf)
}

/// The identifier of a bundle, likewise concealment-stable.
pub fn bundle_id_of(b: &Bundle) -> (r: Id)
    ensures
        r == bundle_id_spec(*b),
{
    let mut buf: Vec<u8> = Vec::new();
    write_bundle_concealed(&mut buf, b);
    digest_id(TAG_BUNDLE, &buf)
}

/// The disclose hash of a bundled witness.
pub fn witness_disclose(bw: &BundledWitness) -> (r: Id)
    ensures
        r == witness_disclose_spec(*bw),
{
    let mut buf: Vec<u8> = Vec::new();
    write_bundled_witness_concealed(&mut buf, bw);
    digest_id(TAG_WITNESS_DISCLOSE, &buf)
}

/// The identifier an interface commits to.
pub fn iface_id_of(i: &Iface) -> (r: Id)
    ensures
        r == iface_id_spec(*i),
{
    let mut buf: Vec<u8> = Vec::new();
    push_bytes(&mut buf, &i.name);
    push_bytes(&mut buf, &i.payload);
    proof {
        assert(buf@ =~= enc_iface(*i));
    }
    digest_id(TAG_IFACE, &buf)
}

/// The identifier of an interface implementation.
pub fn impl_id_of(i: &IfaceImpl) -> (r: Id)
    ensures
        r == impl_id_spec(*i),
{
    let mut buf: Vec<u8> = Vec::new();
    push_id(&mut buf, &i.iface_id);
    push_bytes(&mut buf, &i.payload);
    proof {
        assert(buf@ =~= enc_iface_impl(*i));
    }
    digest_id(TAG_IFACE_IMPL, &buf)
}

/// The identifier of a supplement.
pub fn suppl_id_of(s: &Supplement) -> (r: Id)
    ensures
        r == suppl_id_spec(*s),
{
    let mut buf: Vec<u8> = Vec::new();
    push_bytes(&mut buf, &s.payload);
    digest_id(TAG_SUPPLEMENT, &buf)
}

/// The identifier of a script library.
pub fn lib_id_of(l: &ScriptLib) -> (r: Id)
    ensures
        r == lib_id_spec(*l),
{
    let mut buf: Vec<u8> = Vec::new();
    push_bytes(&mut buf, &l.payload);
    digest_id(TAG_SCRIPT_LIB, &buf)
}

/// The identifier of a type system.
pub fn type_system_id_of(t: &TypeSystem) -> (r: Id)
    ensures
        r == type_system_id_spec(*t),
{
    let mut buf: Vec<u8> = Vec::new();
    push_bytes(&mut buf, &t.payload);
    digest_id(TAG_TYPE_SYSTEM, &buf)
}

/// The identifier of a schema.
pub fn schema_id_of(s: &Schema) -> (r: Id)
    ensures
        r == schema_id_spec(*s),
{
    let mut buf: Vec<u8> = Vec::new();
    push_bytes(&mut buf, &s.payload);
    digest_id(TAG_SCHEMA, &buf)
}

// ------------------------------------------------------------- sorted sets

/// Inserts an identifier into a sorted duplicate-free sequence, keeping it
/// sorted and duplicate-free; the base of the set commitments.
pub open spec fn ins_sorted(s: Seq<Id>, x: Id) -> Seq<Id>
    decreases s.len(),
{
    if s.len() == 0 {
        seq![x]
    } else if x.lt_spec(s[0]) {
        seq![x] + s
    } else if x == s[0] {
        s
    } else {
        seq![s[0]] + ins_sorted(s.drop_first(), x)
    }
}

/// The canonical sorted, duplicate-free sequence of a sequence of
/// identifiers: the order in which a set of identifiers is committed.
pub open spec fn sort_ids(s: Seq<Id>) -> Seq<Id>
    decreases s.len(),
{
    if s.len() == 0 {
        Seq::empty()
    } else {
        ins_sorted(sort_ids(s.drop_last()), s.last())
    }
}

/// Executable insertion into a sorted duplicate-free identifier list.
fn ins_sorted_exec(v: &mut Vec<Id>, x: Id)
    ensures
        final(v)@ == ins_sorted(old(v)@, x),
{
    proof {
        assert(old(v)@.subrange(0, old(v)@.len() as int) =~= old(v)@);
        assert(old(v)@.subrange(0, 0) =~= Seq::<Id>::empty());
        assert(Seq::<Id>::empty() + ins_sorted(old(v)@, x) =~= ins_sorted(old(v)@, x));
    }
    let mut k: usize = 0;
    while k < v.len() && v[k].lt(&x)
        invariant
            k <= v@.len(),
            v@ == old(v)@,
            forall|i: int| 0 <= i < k ==> (#[trigger] v@[i]).lt_spec(x),
            ins_sorted(old(v)@, x) == old(v)@.subrange(0, k as int)
                + ins_sorted(old(v)@.subrange(k as int, old(v)@.len() as int), x),
        decreases v.len() - k,
    {
        proof {
            let rest = old(v)@.subrange(k as int, old(v)@.len() as int);
            assert(rest[0] == old(v)@[k as int]);
            assert(rest.drop_first() =~= old(v)@.subrange(k as int + 1, old(v)@.len() as int));
            assert(ins_sorted(rest, x) == seq![rest[0]] + ins_sorted(rest.drop_first(), x));
            assert(old(v)@.subrange(0, k as int) + ins_sorted(rest, x)
                =~= old(v)@.subrange(0, k as int + 1)
                + ins_sorted(old(v)@.subrange(k as int + 1, old(v)@.len() as int), x));
        }
        k += 1;
    }
    let ghost rest = old(v)@.subrange(k as int, old(v)@.len() as int);
    if k == v.len() {
        v.push(x);
        proof {
            assert(rest =~= Seq::<Id>::empty());
            assert(ins_sorted(rest, x) == seq![x]);
            assert(v@ =~= old(v)@.subrange(0, k as int) + ins_sorted(rest, x));
        }
    } else if v[k].w0 == x.w0 && v[k].w1 == x.w1 && v[k].w2 == x.w2 && v[k].w3 == x.w3 {
        proof {
            assert(rest[0] == old(v)@[k as int]);
            assert(x == rest[0]);
            assert(!x.lt_spec(rest[0]));
            assert(ins_sorted(rest, x) == rest);
            assert(v@ =~= old(v)@.subrange(0, k as int) + rest);
        }
    } else {
        proof {
            assert(rest[0] == old(v)@[k as int]);
            assert(!rest[0].lt_spec(x));
            assert(x != rest[0]);
            assert(x.lt_spec(rest[0]));
            assert(ins_sorted(rest, x) == seq![x] + rest);
        }
        v.insert(k, x);
        proof {
            assert(v@ =~= old(v)@.subrange(0, k as int) + (seq![x] + rest));
        }
    }
}

/// Sorts a list of identifiers into its canonical set order.
pub fn sort_ids_exec(v: &Vec<Id>) -> (r: Vec<Id>)
    ensures
        r@ == sort_ids(v@),
{
    let mut out: Vec<Id> = Vec::new();
    let mut i: usize = 0;
    while i < v.len()
        invariant
            i <= v@.len(),
            out@ == sort_ids(v@.subrange(0, i as int)),
        decreases v.len() - i,
    {
        ins_sorted_exec(&mut out, v[i]);
        proof {
            let pre = v@.subrange(0, i as int + 1);
            assert(pre.drop_last() =~= v@.subrange(0, i as int));
            assert(pre.last() == v@[i as int]);
        }
        i += 1;
    }
    proof {
        assert(v@.subrange(0, v@.len() as int) =~= v@);
    }
    out
}

/// A committed set of identifiers: the sorted list, length-prefixed.
pub open spec fn enc_id_set(s: Seq<Id>) -> Seq<u8> {
    enc_list(sort_ids(s), |i: Id| enc_id(i))
}

/// Writes a committed identifier set.
pub fn write_id_set(buf: &mut Vec<u8>, v: &Vec<Id>)
    ensures
        final(buf)@ == old(buf)@ + enc_id_set(v@),
{
    let sorted = sort_ids_exec(v);
    push_u64(buf, sorted.len() as u64);
    let ghost fi = |i: Id| enc_id(i);
    let ghost pre = buf@;
    let mut k: usize = 0;
    while k < sorted.len()
        invariant
            k <= sorted.len(),
            buf@ == pre + enc_each(sorted@.subrange(0, k as int), fi),
            fi == (|i: Id| enc_id(i)),
        decreases sorted.len() - k,
    {
        push_id(buf, &sorted[k]);
        proof {
            crate::model::lemma_enc_each_push(sorted@.subrange(0, k as int), fi,
                sorted@[k as int]);
            assert(sorted@.subrange(0, k as int).push(sorted@[k as int])
                =~= sorted@.subrange(0, k as int + 1));
            assert(buf@ =~= pre + enc_each(sorted@.subrange(0, k as int + 1), fi));
        }
        k += 1;
    }
    proof {
        assert(sorted@.subrange(0, sorted@.len() as int) =~= sorted@);
        assert(buf@ =~= old(buf)@ + enc_id_set(v@));
    }
}

// ------------------------------------------------------------ shared lemmas

/// Two element-wise `f`-equal sequences have equal concatenated encodings.
pub proof fn lemma_enc_each_pointwise<T>(s1: Seq<T>, s2: Seq<T>, f: spec_fn(T) -> Seq<u8>)
    requires
        s1.len() == s2.len(),
        forall|i: int| 0 <= i < s1.len() ==> f(s1[i]) == f(s2[i]),
    ensures
        enc_each(s1, f) == enc_each(s2, f),
    decreases s1.len(),
{
    if s1.len() > 0 {
        assert(f(s1[0]) == f(s2[0]));
        lemma_enc_each_pointwise(s1.drop_first(), s2.drop_first(), f);
    }
}

} // verus!
