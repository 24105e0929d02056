//! The data model of a consignment: genesis, extensions, transitions, seals,
//! bundled witnesses and the auxiliary payloads a container carries.
//!
//! Every type holds plain values; anything the surrounding ecosystem computes
//! from them (digests, witness order) enters through the commitment module or
//! through the capability traits. Each type has one canonical byte encoding
//! (`enc_*`), used both for the armored body and, in its concealed variant in
//! the commitment module, for content-addressed identity.

use vstd::prelude::*;

use crate::ids::{ContractId, Id, OpId, SchemaId, SecretSeal, WitnessId};
use crate::codec::{enc_bool, enc_bytes, enc_id, enc_u128, enc_u16, enc_u32, enc_u64, enc_u8,
    push_bool, push_bytes, push_id, push_u128, push_u16, push_u32, push_u64, push_u8};

verus! {

/// Serializes each element in order; the base of every list encoding.
pub open spec fn enc_each<T>(s: Seq<T>, f: spec_fn(T) -> Seq<u8>) -> Seq<u8>
    decreases s.len(),
{
    if s.len() == 0 {
        Seq::empty()
    } else {
        f(s[0]) + enc_each(s.drop_first(), f)
    }
}

/// A list: a 64-bit element count followed by the elements.
pub open spec fn enc_list<T>(s: Seq<T>, f: spec_fn(T) -> Seq<u8>) -> Seq<u8> {
    enc_u64(s.len() as u64) + enc_each(s, f)
}

pub proof fn lemma_enc_each_push<T>(s: Seq<T>, f: spec_fn(T) -> Seq<u8>, x: T)
    ensures
        enc_each(s.push(x), f) == enc_each(s, f) + f(x),
    decreases s.len(),
{
    if s.len() == 0 {
        assert(s.push(x)[0] == x);
        assert(s.push(x).drop_first() =~= Seq::<T>::empty());
        assert(enc_each(s.push(x).drop_first(), f) == Seq::<u8>::empty());
        assert(enc_each(s.push(x), f) == f(x) + Seq::<u8>::empty());
        assert(enc_each(s, f) == Seq::<u8>::empty());
        assert(enc_each(s.push(x), f) =~= enc_each(s, f) + f(x));
    } else {
        assert(s.push(x).drop_first() =~= s.drop_first().push(x));
        lemma_enc_each_push(s.drop_first(), f, x);
        assert(s.push(x)[0] == s[0]);
        assert(enc_each(s.push(x), f) == f(s[0]) + (enc_each(s.drop_first(), f) + f(x)));
        assert(enc_each(s, f) == f(s[0]) + enc_each(s.drop_first(), f));
        assert(enc_each(s.push(x), f) =~= enc_each(s, f) + f(x));
    }
}

// ------------------------------------------------------------------- genesis

/// The contract-issuance record. `payload` stands for the schema-typed
/// issuance data (metadata, global state, issuance assignments), carried
/// opaquely: the container commits to it and ships it, the rule engine behind
/// the validator capability interprets it.
#[derive(Clone, PartialEq, Eq, Debug)]
pub struct Genesis {
    pub schema_id: SchemaId,
    pub testnet: bool,
    pub payload: Vec<u8>,
}

/// The mathematical content of a genesis.
#[verifier::ext_equal]
pub ghost struct GenesisV {
    pub schema_id: SchemaId,
    pub testnet: bool,
    pub payload: Seq<u8>,
}

impl View for Genesis {
    type V = GenesisV;

    open spec fn view(&self) -> GenesisV {
        GenesisV { schema_id: self.schema_id, testnet: self.testnet, payload: self.payload@ }
    }
}

pub open spec fn enc_genesis_v(g: GenesisV) -> Seq<u8> {
    enc_id(g.schema_id) + enc_bool(g.testnet) + enc_bytes(g.payload)
}

pub open spec fn enc_genesis(g: Genesis) -> Seq<u8> {
    enc_genesis_v(g@)
}

pub fn write_genesis(buf: &mut Vec<u8>, g: &Genesis)
    ensures
        final(buf)@ == old(buf)@ + enc_genesis(*g),
{
    push_id(buf, &g.schema_id);
    push_bool(buf, g.testnet);
    push_bytes(buf, &g.payload);
    proof {
        assert(buf@ =~= old(buf)@ + enc_genesis(*g));
    }
}

// ----------------------------------------------------------------- extension

/// A state-extension record, hashable on its own; the engine orders it at
/// apply time by the earliest witness that consumes it.
#[derive(Clone, PartialEq, Eq, Debug)]
pub struct Extension {
    pub payload: Vec<u8>,
}

pub open spec fn enc_extension(x: Extension) -> Seq<u8> {
    enc_bytes(x.payload@)
}

pub fn write_extension(buf: &mut Vec<u8>, x: &Extension)
    ensures
        final(buf)@ == old(buf)@ + enc_extension(*x),
{
    push_bytes(buf, &x.payload);
}

// --------------------------------------------------------------------- seals

/// A revealed ("graph") seal: the single-use output it points to, plus the
/// blinding that hides it while concealed.
#[derive(Clone, Copy, PartialEq, Eq, Structural, Debug)]
pub struct GraphSeal {
    pub txid: Id,
    pub vout: u32,
    pub blinding: u64,
}

pub open spec fn enc_graph_seal(g: GraphSeal) -> Seq<u8> {
    enc_id(g.txid) + enc_u32(g.vout) + enc_u64(g.blinding)
}

pub fn write_graph_seal(buf: &mut Vec<u8>, g: &GraphSeal)
    ensures
        final(buf)@ == old(buf)@ + enc_graph_seal(*g),
{
    push_id(buf, &g.txid);
    push_u32(buf, g.vout);
    push_u64(buf, g.blinding);
    proof {
        assert(buf@ =~= old(buf)@ + enc_graph_seal(*g));
    }
}

/// An assignment's seal: either still concealed (only its commitment is
/// known) or revealed in full.
#[derive(Clone, Copy, PartialEq, Eq, Structural, Debug)]
pub enum Seal {
    Concealed(SecretSeal),
    Revealed(GraphSeal),
}

pub open spec fn enc_seal(s: Seal) -> Seq<u8> {
    match s {
        Seal::Concealed(id) => enc_u8(0) + enc_id(id),
        Seal::Revealed(g) => enc_u8(1) + enc_graph_seal(g),
    }
}

pub fn write_seal(buf: &mut Vec<u8>, s: &Seal)
    ensures
        final(buf)@ == old(buf)@ + enc_seal(*s),
{
    match s {
        Seal::Concealed(id) => {
            push_u8(buf, 0);
            push_id(buf, id);
        },
        Seal::Revealed(g) => {
            push_u8(buf, 1);
            write_graph_seal(buf, g);
        },
    }
    proof {
        assert(buf@ =~= old(buf)@ + enc_seal(*s));
    }
}

// --------------------------------------------------------------- owned state

/// A single assignment's revealed value, as the engine persists it: nothing,
/// a blinded fungible amount under an asset tag, structured data with a
/// salt, or an attachment reference with a salt.
#[derive(Clone, PartialEq, Eq, Hash, Debug)]
pub enum PersistedState {
    Void,
    Amount(u64, Id, Id),
    Data(Vec<u8>, u128),
    Attachment(Id, u64),
}

impl PersistedState {
    /// Replaces the blinding factor of a fungible amount; every other kind
    /// of state carries no blinding and stays as it is.
    pub fn update_blinding(&mut self, blinding: Id)
        ensures
            *final(self) == match *old(self) {
                PersistedState::Amount(a, _, t) => PersistedState::Amount(a, blinding, t),
                other => other,
            },
    {
        match self {
            PersistedState::Amount(_, b, _) => {
                *b = blinding;
            },
            _ => {},
        }
    }
}

/// The mathematical content of a persisted state value.
#[verifier::ext_equal]
pub ghost enum PersistedStateV {
    Void,
    Amount(u64, Id, Id),
    Data(Seq<u8>, u128),
    Attachment(Id, u64),
}

impl View for PersistedState {
    type V = PersistedStateV;

    open spec fn view(&self) -> PersistedStateV {
        match *self {
            PersistedState::Void => PersistedStateV::Void,
            PersistedState::Amount(a, b, t) => PersistedStateV::Amount(a, b, t),
            PersistedState::Data(d, salt) => PersistedStateV::Data(d@, salt),
            PersistedState::Attachment(id, salt) => PersistedStateV::Attachment(id, salt),
        }
    }
}

pub open spec fn enc_state(s: PersistedState) -> Seq<u8> {
    match s {
        PersistedState::Void => enc_u8(0),
        PersistedState::Amount(a, b, t) => enc_u8(1) + enc_u64(a) + enc_id(b) + enc_id(t),
        PersistedState::Data(d, salt) => enc_u8(2) + enc_bytes(d@) + enc_u128(salt),
        PersistedState::Attachment(id, salt) => enc_u8(3) + enc_id(id) + enc_u64(salt),
    }
}

pub fn write_state(buf: &mut Vec<u8>, s: &PersistedState)
    ensures
        final(buf)@ == old(buf)@ + enc_state(*s),
{
    match s {
        PersistedState::Void => {
            push_u8(buf, 0);
        },
        PersistedState::Amount(a, b, t) => {
            push_u8(buf, 1);
            push_u64(buf, *a);
            push_id(buf, b);
            push_id(buf, t);
        },
        PersistedState::Data(d, salt) => {
            push_u8(buf, 2);
            push_bytes(buf, d);
            push_u128(buf, *salt);
        },
        PersistedState::Attachment(id, salt) => {
            push_u8(buf, 3);
            push_id(buf, id);
            push_u64(buf, *salt);
        },
    }
    proof {
        assert(buf@ =~= old(buf)@ + enc_state(*s));
    }
}

// --------------------------------------------------------------- transitions

/// A reference to an output of a previous operation.
#[derive(Clone, Copy, PartialEq, Eq, Structural, Debug)]
pub struct Opout {
    pub op: OpId,
    pub ty: u16,
    pub no: u16,
}

pub open spec fn enc_opout(o: Opout) -> Seq<u8> {
    enc_id(o.op) + enc_u16(o.ty) + enc_u16(o.no)
}

pub fn write_opout(buf: &mut Vec<u8>, o: &Opout)
    ensures
        final(buf)@ == old(buf)@ + enc_opout(*o),
{
    push_id(buf, &o.op);
    push_u16(buf, o.ty);
    push_u16(buf, o.no);
    proof {
        assert(buf@ =~= old(buf)@ + enc_opout(*o));
    }
}

/// One owned-state assignment created by an operation.
#[derive(Clone, PartialEq, Eq, Debug)]
pub struct Assignment {
    pub ty: u16,
    pub seal: Seal,
    pub state: PersistedState,
}

pub open spec fn enc_assignment(a: Assignment) -> Seq<u8> {
    enc_u16(a.ty) + enc_seal(a.seal) + enc_state(a.state)
}

pub fn write_assignment(buf: &mut Vec<u8>, a: &Assignment)
    ensures
        final(buf)@ == old(buf)@ + enc_assignment(*a),
{
    push_u16(buf, a.ty);
    write_seal(buf, &a.seal);
    write_state(buf, &a.state);
    proof {
        assert(buf@ =~= old(buf)@ + enc_assignment(*a));
    }
}

/// A state transition: consumes previous outputs, creates new assignments.
/// `payload` carries the schema-typed remainder (metadata, global state,
/// valencies) opaquely.
#[derive(Clone, PartialEq, Eq, Debug)]
pub struct Transition {
    pub contract_id: ContractId,
    pub transition_type: u16,
    pub inputs: Vec<Opout>,
    pub assignments: Vec<Assignment>,
    pub payload: Vec<u8>,
}

pub open spec fn enc_transition(t: Transition) -> Seq<u8> {
    enc_id(t.contract_id) + enc_u16(t.transition_type)
        + enc_list(t.inputs@, |o: Opout| enc_opout(o))
        + enc_list(t.assignments@, |a: Assignment| enc_assignment(a))
        + enc_bytes(t.payload@)
}

pub fn write_opouts(buf: &mut Vec<u8>, v: &Vec<Opout>)
    ensures
        final(buf)@ == old(buf)@ + enc_list(v@, |o: Opout| enc_opout(o)),
{
    push_u64(buf, v.len() as u64);
    let ghost fo = |o: Opout| enc_opout(o);
    let ghost pre = buf@;
    let mut k: usize = 0;
    while k < v.len()
        invariant
            k <= v.len(),
            buf@ == pre + enc_each(v@.subrange(0, k as int), fo),
            fo == (|o: Opout| enc_opout(o)),
        decreases v.len() - k,
    {
        write_opout(buf, &v[k]);
        proof {
            lemma_enc_each_push(v@.subrange(0, k as int), fo, v@[k as int]);
            assert(v@.subrange(0, k as int).push(v@[k as int])
                =~= v@.subrange(0, k as int + 1));
            assert(buf@ =~= pre + enc_each(v@.subrange(0, k as int + 1), fo));
        }
        k += 1;
    }
    proof {
        assert(v@.subrange(0, v@.len() as int) =~= v@);
        assert(buf@ =~= old(buf)@ + enc_list(v@, fo));
    }
}

fn write_assignments(buf: &mut Vec<u8>, v: &Vec<Assignment>)
    ensures
        final(buf)@ == old(buf)@ + enc_list(v@, |a: Assignment| enc_assignment(a)),
{
    push_u64(buf, v.len() as u64);
    let ghost fa = |a: Assignment| enc_assignment(a);
    let ghost pre = buf@;
    let mut k: usize = 0;
    while k < v.len()
        invariant
            k <= v.len(),
            buf@ == pre + enc_each(v@.subrange(0, k as int), fa),
            fa == (|a: Assignment| enc_assignment(a)),
        decreases v.len() - k,
    {
        write_assignment(buf, &v[k]);
        proof {
            lemma_enc_each_push(v@.subrange(0, k as int), fa, v@[k as int]);
            assert(v@.subrange(0, k as int).push(v@[k as int])
                =~= v@.subrange(0, k as int + 1));
            assert(buf@ =~= pre + enc_each(v@.subrange(0, k as int + 1), fa));
        }
        k += 1;
    }
    proof {
        assert(v@.subrange(0, v@.len() as int) =~= v@);
        assert(buf@ =~= old(buf)@ + enc_list(v@, fa));
    }
}

pub fn write_transition(buf: &mut Vec<u8>, t: &Transition)
    ensures
        final(buf)@ == old(buf)@ + enc_transition(*t),
{
    push_id(buf, &t.contract_id);
    push_u16(buf, t.transition_type);
    write_opouts(buf, &t.inputs);
    write_assignments(buf, &t.assignments);
    push_bytes(buf, &t.payload);
    proof {
        assert(buf@ =~= old(buf)@ + enc_transition(*t));
    }
}

// ------------------------------------------------------------------- bundles

/// The set of transitions anchored to one witness under one bundle identity.
#[derive(Clone, PartialEq, Eq, Debug)]
pub struct Bundle {
    pub transitions: Vec<Transition>,
}

pub open spec fn enc_bundle(b: Bundle) -> Seq<u8> {
    enc_list(b.transitions@, |t: Transition| enc_transition(t))
}

pub fn write_bundle(buf: &mut Vec<u8>, b: &Bundle)
    ensures
        final(buf)@ == old(buf)@ + enc_bundle(*b),
{
    push_u64(buf, b.transitions.len() as u64);
    let ghost ft = |t: Transition| enc_transition(t);
    let ghost pre = buf@;
    let mut k: usize = 0;
    while k < b.transitions.len()
        invariant
            k <= b.transitions.len(),
            buf@ == pre + enc_each(b.transitions@.subrange(0, k as int), ft),
            ft == (|t: Transition| enc_transition(t)),
        decreases b.transitions.len() - k,
    {
        write_transition(buf, &b.transitions[k]);
        proof {
            lemma_enc_each_push(b.transitions@.subrange(0, k as int), ft,
                b.transitions@[k as int]);
            assert(b.transitions@.subrange(0, k as int).push(b.transitions@[k as int])
                =~= b.transitions@.subrange(0, k as int + 1));
            assert(buf@ =~= pre + enc_each(b.transitions@.subrange(0, k as int + 1), ft));
        }
        k += 1;
    }
    proof {
        assert(b.transitions@.subrange(0, b.transitions@.len() as int) =~= b.transitions@);
        assert(buf@ =~= old(buf)@ + enc_bundle(*b));
    }
}

/// The public witness anchoring one or more bundles to the timestamping
/// layer; the engine reads only its identifier.
#[derive(Clone, Copy, PartialEq, Eq, Structural, Debug)]
pub struct PubWitness {
    pub witness_id: WitnessId,
}

impl PubWitness {
    pub fn to_witness_id(&self) -> (r: WitnessId)
        ensures
            r == self.witness_id,
    {
        self.witness_id
    }
}

pub open spec fn enc_pub_witness(w: PubWitness) -> Seq<u8> {
    enc_id(w.witness_id)
}

/// A public witness together with the bundles it anchors.
#[derive(Clone, PartialEq, Eq, Debug)]
pub struct BundledWitness {
    pub pub_witness: PubWitness,
    pub bundles: Vec<Bundle>,
}

pub open spec fn enc_bundled_witness(bw: BundledWitness) -> Seq<u8> {
    enc_pub_witness(bw.pub_witness) + enc_list(bw.bundles@, |b: Bundle| enc_bundle(b))
}

pub fn write_bundled_witness(buf: &mut Vec<u8>, bw: &BundledWitness)
    ensures
        final(buf)@ == old(buf)@ + enc_bundled_witness(*bw),
{
    push_id(buf, &bw.pub_witness.witness_id);
    push_u64(buf, bw.bundles.len() as u64);
    let ghost fb = |b: Bundle| enc_bundle(b);
    let ghost pre = buf@;
    let mut k: usize = 0;
    while k < bw.bundles.len()
        invariant
            k <= bw.bundles.len(),
            buf@ == pre + enc_each(bw.bundles@.subrange(0, k as int), fb),
            fb == (|b: Bundle| enc_bundle(b)),
        decreases bw.bundles.len() - k,
    {
        write_bundle(buf, &bw.bundles[k]);
        proof {
            lemma_enc_each_push(bw.bundles@.subrange(0, k as int), fb, bw.bundles@[k as int]);
            assert(bw.bundles@.subrange(0, k as int).push(bw.bundles@[k as int])
                =~= bw.bundles@.subrange(0, k as int + 1));
            assert(buf@ =~= pre + enc_each(bw.bundles@.subrange(0, k as int + 1), fb));
        }
        k += 1;
    }
    proof {
        assert(bw.bundles@.subrange(0, bw.bundles@.len() as int) =~= bw.bundles@);
        assert(buf@ =~= old(buf)@ + enc_bundled_witness(*bw));
    }
}

// ------------------------------------------------------- interfaces & extras

/// An interface: a named projection of contract state.
#[derive(Clone, PartialEq, Eq, Debug)]
pub struct Iface {
    pub name: Vec<u8>,
    pub payload: Vec<u8>,
}

pub open spec fn enc_iface(i: Iface) -> Seq<u8> {
    enc_bytes(i.name@) + enc_bytes(i.payload@)
}

/// An implementation binding an interface to a schema; `iface_id` is the
/// interface it claims to implement.
#[derive(Clone, PartialEq, Eq, Debug)]
pub struct IfaceImpl {
    pub iface_id: Id,
    pub payload: Vec<u8>,
}

pub open spec fn enc_iface_impl(i: IfaceImpl) -> Seq<u8> {
    enc_id(i.iface_id) + enc_bytes(i.payload@)
}

/// An interface together with its implementation for this contract.
#[derive(Clone, PartialEq, Eq, Debug)]
pub struct IfacePair {
    pub iface: Iface,
    pub iimpl: IfaceImpl,
}

pub open spec fn enc_iface_pair(p: IfacePair) -> Seq<u8> {
    enc_iface(p.iface) + enc_iface_impl(p.iimpl)
}

pub fn write_iface_pair(buf: &mut Vec<u8>, p: &IfacePair)
    ensures
        final(buf)@ == old(buf)@ + enc_iface_pair(*p),
{
    push_bytes(buf, &p.iface.name);
    push_bytes(buf, &p.iface.payload);
    push_id(buf, &p.iimpl.iface_id);
    push_bytes(buf, &p.iimpl.payload);
    proof {
        assert(buf@ =~= old(buf)@ + enc_iface_pair(*p));
    }
}

/// The validation rule set the contract is issued under, carried opaquely
/// for the validator capability.
#[derive(Clone, PartialEq, Eq, Debug)]
pub struct Schema {
    pub payload: Vec<u8>,
}

impl View for Schema {
    type V = Seq<u8>;

    open spec fn view(&self) -> Seq<u8> {
        self.payload@
    }
}

pub open spec fn enc_schema(s: Schema) -> Seq<u8> {
    enc_bytes(s.payload@)
}

/// A known supplement: auxiliary, non-consensus data.
#[derive(Clone, PartialEq, Eq, Debug)]
pub struct Supplement {
    pub payload: Vec<u8>,
}

pub open spec fn enc_supplement(s: Supplement) -> Seq<u8> {
    enc_bytes(s.payload@)
}

/// The type system covering schema and interfaces, carried opaquely.
#[derive(Clone, PartialEq, Eq, Debug)]
pub struct TypeSystem {
    pub payload: Vec<u8>,
}

pub open spec fn enc_type_system(t: TypeSystem) -> Seq<u8> {
    enc_bytes(t.payload@)
}

/// One validation-script library.
#[derive(Clone, PartialEq, Eq, Debug)]
pub struct ScriptLib {
    pub payload: Vec<u8>,
}

pub open spec fn enc_script_lib(l: ScriptLib) -> Seq<u8> {
    enc_bytes(l.payload@)
}

} // verus!
