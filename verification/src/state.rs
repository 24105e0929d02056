//! Persisted contract state: the provider contract a storage backend must
//! implement, a verified in-memory provider, and the state reconciliation
//! engine — the only path by which external data changes persisted state.

use vstd::prelude::*;

use crate::ids::{ContractId, Id, OpId, WitnessId};
use crate::model::{Bundle, BundledWitness, Extension, Genesis, GenesisV, Opout, Schema,
    Transition};
pub use crate::model::{PersistedState, PersistedStateV};
use crate::consignment::{lookup_id, Consignment};
use crate::commit::{contract_id_spec, contract_id_v, extension_id_spec, schema_id_v,
    transition_id_spec};
use crate::validate::{ResolveWitness, ResolverError};

verus! {

// ------------------------------------------------------------ witness order

/// The total order key under which a transition or extension is applied:
/// the witness position reported by the resolver (smaller is earlier / more
/// final), tie-broken by the witness identifier.
#[derive(Clone, Copy, PartialEq, Eq, Structural, Debug)]
pub struct WitnessOrd {
    pub pos: u64,
    pub witness_id: WitnessId,
}

impl WitnessOrd {
    /// Builds an order key from a witness and its resolved position.
    pub fn with(witness_id: WitnessId, pos: u64) -> (r: WitnessOrd)
        ensures
            r == (WitnessOrd { pos, witness_id }),
    {
        WitnessOrd { pos, witness_id }
    }

    /// Strictly earlier in the total order.
    pub open spec fn lt_spec(self, other: Self) -> bool {
        ||| self.pos < other.pos
        ||| (self.pos == other.pos && self.witness_id.lt_spec(other.witness_id))
    }

    pub fn lt(&self, other: &Self) -> (r: bool)
        ensures
            r == self.lt_spec(*other),
    {
        if self.pos != other.pos {
            self.pos < other.pos
        } else {
            self.witness_id.lt(&other.witness_id)
        }
    }
}

/// The earlier of two order keys; the left one on a tie.
pub open spec fn wo_min(a: WitnessOrd, b: WitnessOrd) -> WitnessOrd {
    if b.lt_spec(a) {
        b
    } else {
        a
    }
}

// ------------------------------------------------------------------- errors

/// A distinguished inconsistency: a caller-level bug or storage corruption,
/// not a transient condition.
#[derive(Clone, Copy, PartialEq, Eq, Structural, Debug)]
pub enum StateInconsistency {
    /// The contract's state is not known to the provider.
    UnknownContract(ContractId),
}

/// A provider-side failure: recoverable connectivity trouble. A read of a
/// contract the provider does not hold is answered with this error too,
/// never with a snapshot.
#[derive(Clone, Copy, PartialEq, Eq, Structural, Debug)]
pub enum ProviderError {
    Connectivity,
}

/// Everything a state operation can fail with.
#[derive(Clone, Copy, PartialEq, Eq, Structural, Debug)]
pub enum StateError {
    /// The read side of the provider failed.
    ReadProvider(ProviderError),
    /// The write side of the provider failed.
    WriteProvider(ProviderError),
    /// The named witness could not be resolved.
    Resolver(WitnessId, ResolverError),
    /// See [`StateInconsistency`].
    Inconsistency(StateInconsistency),
}

/// Summary of a witness re-resolution pass.
#[derive(Clone, Copy, PartialEq, Eq, Structural, Debug)]
pub struct UpdateRes {
    /// Operations whose witness order was re-resolved and updated.
    pub updated: u64,
    /// Operations whose witness still fails to resolve.
    pub unresolved: u64,
}

// -------------------------------------------------------------------- model

/// The state of one contract as the provider contract sees it: the schema
/// and genesis it was registered with, the witness order under which each
/// operation is known, and the outputs the operations created.
#[verifier::ext_equal]
pub ghost struct ContractModel {
    pub schema: Seq<u8>,
    pub genesis: GenesisV,
    pub ops: Map<OpId, WitnessOrd>,
    pub exts: Map<OpId, WitnessOrd>,
    pub assigns: Map<Opout, PersistedStateV>,
}

/// Registration is idempotent: a known contract is left untouched, an
/// unknown one starts empty.
pub open spec fn register_model(
    m: Map<ContractId, ContractModel>,
    schema: Seq<u8>,
    genesis: GenesisV,
) -> Map<ContractId, ContractModel> {
    let cid = contract_id_v(genesis);
    if m.contains_key(cid) {
        m
    } else {
        m.insert(cid, ContractModel {
            schema,
            genesis,
            ops: Map::empty(),
            exts: Map::empty(),
            assigns: Map::empty(),
        })
    }
}

/// The outputs created by the first `n` assignments of a transition.
pub open spec fn outputs_prefix(t: Transition, n: int) -> Map<Opout, PersistedStateV>
    decreases n,
{
    if n <= 0 {
        Map::empty()
    } else {
        outputs_prefix(t, n - 1).insert(
            Opout {
                op: transition_id_spec(t),
                ty: t.assignments@[n - 1].ty,
                no: (n - 1) as u16,
            },
            t.assignments@[n - 1].state@,
        )
    }
}

/// Applying a transition to a known contract: a no-op when the operation is
/// already known (idempotence), else its order is recorded and its outputs
/// are added.
pub open spec fn add_tr_model(
    m: Map<ContractId, ContractModel>,
    cid: ContractId,
    t: Transition,
    ord: WitnessOrd,
) -> Map<ContractId, ContractModel>
    recommends
        m.contains_key(cid),
{
    let c = m[cid];
    let tid = transition_id_spec(t);
    if c.ops.contains_key(tid) {
        m
    } else {
        m.insert(cid, ContractModel {
            ops: c.ops.insert(tid, ord),
            assigns: c.assigns.union_prefer_right(outputs_prefix(t, t.assignments@.len()
                as int)),
            ..c
        })
    }
}

/// Applying an extension: a no-op when already known, else recorded at the
/// given order.
pub open spec fn add_ext_model(
    m: Map<ContractId, ContractModel>,
    cid: ContractId,
    eid: OpId,
    ord: WitnessOrd,
) -> Map<ContractId, ContractModel>
    recommends
        m.contains_key(cid),
{
    let c = m[cid];
    if c.exts.contains_key(eid) {
        m
    } else {
        m.insert(cid, ContractModel { exts: c.exts.insert(eid, ord), ..c })
    }
}

/// Re-resolution of one order key: keys at or above the height threshold are
/// re-resolved where the resolver answers, kept otherwise.
pub open spec fn retarget_ord(
    ord: WitnessOrd,
    orders: spec_fn(WitnessId) -> Option<u64>,
    after_height: u32,
) -> WitnessOrd {
    if ord.pos >= after_height as u64 {
        match orders(ord.witness_id) {
            Some(p) => WitnessOrd { pos: p, witness_id: ord.witness_id },
            None => ord,
        }
    } else {
        ord
    }
}

/// Re-resolution applied to a whole provider state, pointwise.
pub open spec fn retarget_model(
    m: Map<ContractId, ContractModel>,
    orders: spec_fn(WitnessId) -> Option<u64>,
    after_height: u32,
) -> Map<ContractId, ContractModel> {
    Map::new(
        |cid: ContractId| m.contains_key(cid),
        |cid: ContractId|
            ContractModel {
                ops: Map::new(
                    |k: OpId| m[cid].ops.contains_key(k),
                    |k: OpId| retarget_ord(m[cid].ops[k], orders, after_height),
                ),
                exts: Map::new(
                    |k: OpId| m[cid].exts.contains_key(k),
                    |k: OpId| retarget_ord(m[cid].exts[k], orders, after_height),
                ),
                ..m[cid]
            },
    )
}

/// Every transition of the bundle stays within the output-index bound.
pub open spec fn bundle_caps(b: Bundle) -> bool {
    forall|i: int| 0 <= i < b.transitions@.len() ==> (#[trigger] b.transitions@[i])
        .assignments@.len() <= 0xFFFF
}

/// Every transition anywhere in the consignment stays within the
/// output-index bound.
pub open spec fn consignment_caps(c: Consignment) -> bool {
    forall|i: int, j: int| 0 <= i < c.bundles@.len() && 0 <= j
        < c.bundles@[i].bundles@.len() ==> bundle_caps(#[trigger] c.bundles@[i].bundles@[j])
}

// ---------------------------------------------------------------- snapshots

/// A read handle over one contract's state: a point-in-time copy of what the
/// provider holds for it.
pub struct ContractSnapshot {
    pub contract_id: ContractId,
    pub schema_id: Id,
    pub ops: Vec<(OpId, WitnessOrd)>,
    pub exts: Vec<(OpId, WitnessOrd)>,
    pub assigns: Vec<(Opout, PersistedState)>,
}

/// Assignment entries correspond to the model map through their views.
pub open spec fn assign_entries_match(s: Seq<(Opout, PersistedState)>,
    m: Map<Opout, PersistedStateV>) -> bool {
    &&& forall|i: int| 0 <= i < s.len() ==> m.contains_key((#[trigger] s[i]).0) && m[s[i].0]
        == s[i].1@
    &&& forall|k: Opout| m.contains_key(k) ==> exists|i: int| 0 <= i < s.len()
        && (#[trigger] s[i]).0 == k
    &&& forall|i: int, j: int| 0 <= i < j < s.len() ==> (#[trigger] s[i]).0
        != (#[trigger] s[j]).0
}

/// A key-value list carries exactly the entries of a map, each key once.
pub open spec fn entries_match<K, V>(s: Seq<(K, V)>, m: Map<K, V>) -> bool {
    &&& forall|i: int| 0 <= i < s.len() ==> m.contains_key((#[trigger] s[i]).0) && m[s[i].0]
        == s[i].1
    &&& forall|k: K| m.contains_key(k) ==> exists|i: int| 0 <= i < s.len()
        && (#[trigger] s[i]).0 == k
    &&& forall|i: int, j: int| 0 <= i < j < s.len() ==> (#[trigger] s[i]).0
        != (#[trigger] s[j]).0
}

impl ContractSnapshot {
    /// The contract this snapshot describes.
    pub fn contract_id(&self) -> (r: ContractId)
        ensures
            r == self.contract_id,
    {
        self.contract_id
    }

    /// The schema the contract was registered under.
    pub fn schema_id(&self) -> (r: Id)
        ensures
            r == self.schema_id,
    {
        self.schema_id
    }
}

// ------------------------------------------------------------------- traits

/// The read side of a storage backend.
pub trait StateReadProvider {
    /// The per-contract state the read side sees.
    spec fn read_model(&self) -> Map<ContractId, ContractModel>;

    /// A snapshot of one contract's state; fails with recoverable
    /// connectivity trouble, and always fails for a contract the provider
    /// does not hold.
    fn contract_state(&self, contract_id: ContractId) -> (r: Result<ContractSnapshot,
        ProviderError>)
        ensures
            match r {
                Ok(s) => self.read_model().contains_key(contract_id)
                    && s.contract_id == contract_id
                    && s.schema_id == schema_id_v(self.read_model()[contract_id].schema)
                    && entries_match(s.ops@, self.read_model()[contract_id].ops)
                    && entries_match(s.exts@, self.read_model()[contract_id].exts)
                    && assign_entries_match(s.assigns@, self.read_model()[contract_id].assigns),
                Err(ProviderError::Connectivity) => true,
            },
    ;
}

/// The write side of a storage backend. Every mutation is idempotent with
/// respect to re-application of the same record, every failure leaves the
/// state as it was, and the transaction methods give rollback semantics:
/// `saved` is the state a rollback returns to.
pub trait StateWriteProvider {
    /// The per-contract state the write side sees.
    spec fn model(&self) -> Map<ContractId, ContractModel>;

    /// The state a rollback would restore.
    spec fn saved(&self) -> Map<ContractId, ContractModel>;

    /// Whether the contract is registered.
    fn has_contract(&self, contract_id: ContractId) -> (r: bool)
        ensures
            r == self.model().contains_key(contract_id),
    ;

    /// First-time registration; idempotent for an already-known contract.
    fn register_contract(&mut self, schema: &Schema, genesis: &Genesis) -> (r: Result<(),
        ProviderError>)
        ensures
            match r {
                Ok(()) => final(self).model() == register_model(old(self).model(), schema@,
                    genesis@) && final(self).saved() == old(self).saved(),
                Err(_) => final(self).model() == old(self).model() && final(self).saved()
                    == old(self).saved(),
            },
    ;

    /// Records one transition under its witness order; a no-op if the
    /// transition is already known.
    fn add_transition(&mut self, contract_id: ContractId, transition: &Transition,
        ord: WitnessOrd) -> (r: Result<(), ProviderError>)
        requires
            old(self).model().contains_key(contract_id),
            transition.assignments@.len() <= 0xFFFF,
        ensures
            match r {
                Ok(()) => final(self).model() == add_tr_model(old(self).model(), contract_id,
                    *transition, ord) && final(self).saved() == old(self).saved(),
                Err(_) => final(self).model() == old(self).model() && final(self).saved()
                    == old(self).saved(),
            },
    ;

    /// Records one extension under its witness order; a no-op if the
    /// extension is already known.
    fn add_extension(&mut self, contract_id: ContractId, extension: &Extension,
        ord: WitnessOrd) -> (r: Result<(), ProviderError>)
        requires
            old(self).model().contains_key(contract_id),
        ensures
            match r {
                Ok(()) => final(self).model() == add_ext_model(old(self).model(), contract_id,
                    extension_id_spec(*extension), ord) && final(self).saved()
                    == old(self).saved(),
                Err(_) => final(self).model() == old(self).model() && final(self).saved()
                    == old(self).saved(),
            },
    ;

    /// Re-resolves the witness order of every operation at or above the
    /// given height and reorders state accordingly.
    fn update_witnesses<R: ResolveWitness>(&mut self, resolver: &R, after_height: u32) -> (r:
        Result<UpdateRes, ProviderError>)
        ensures
            match r {
                Ok(_) => final(self).model() == retarget_model(old(self).model(),
                    |w: WitnessId| resolver.ord_of(w), after_height) && final(self).saved()
                    == old(self).saved(),
                Err(_) => final(self).model() == old(self).model() && final(self).saved()
                    == old(self).saved(),
            },
    ;

    /// Opens a transaction: the current state becomes the rollback point.
    fn begin_transaction(&mut self) -> (r: Result<(), ProviderError>)
        ensures
            match r {
                Ok(()) => final(self).model() == old(self).model() && final(self).saved()
                    == old(self).model(),
                Err(_) => final(self).model() == old(self).model() && final(self).saved()
                    == old(self).saved(),
            },
    ;

    /// Commits: the current state becomes durable.
    fn commit_transaction(&mut self) -> (r: Result<(), ProviderError>)
        ensures
            match r {
                Ok(()) => final(self).model() == old(self).model() && final(self).saved()
                    == old(self).model(),
                Err(_) => final(self).model() == old(self).model() && final(self).saved()
                    == old(self).saved(),
            },
    ;

    /// Rolls back to the last transaction boundary: no partial writes stay
    /// observable.
    fn rollback_transaction(&mut self)
        ensures
            final(self).model() == old(self).saved(),
            final(self).saved() == old(self).saved(),
    ;
}

/// A full storage backend: both sides, agreeing on what they see.
pub trait StateProvider: StateReadProvider + StateWriteProvider {
    /// The two sides of the provider expose one and the same state.
    proof fn models_agree(&self)
        ensures
            self.read_model() == self.model(),
    ;
}

// ------------------------------------------------- key-value list machinery

/// The map a key-value list denotes; a later entry would win, and the lists
/// used here keep their keys unique.
pub open spec fn map_of<K, V>(s: Seq<(K, V)>) -> Map<K, V>
    decreases s.len(),
{
    if s.len() == 0 {
        Map::empty()
    } else {
        map_of(s.drop_last()).insert(s.last().0, s.last().1)
    }
}

/// No two entries share a key.
pub open spec fn unique_keys<K, V>(s: Seq<(K, V)>) -> bool {
    forall|i: int, j: int| 0 <= i < j < s.len() ==> (#[trigger] s[i]).0 != (#[trigger] s[j]).0
}

pub proof fn lemma_map_of_contains<K, V>(s: Seq<(K, V)>, k: K)
    ensures
        map_of(s).contains_key(k) <==> exists|i: int| 0 <= i < s.len() && (#[trigger] s[i]).0
            == k,
    decreases s.len(),
{
    if s.len() > 0 {
        lemma_map_of_contains(s.drop_last(), k);
        if map_of(s).contains_key(k) {
            if s.last().0 == k {
                assert(s[s.len() - 1].0 == k);
            } else {
                let i = choose|i: int| 0 <= i < s.drop_last().len()
                    && (#[trigger] s.drop_last()[i]).0 == k;
                assert(s[i].0 == k);
            }
        }
        if exists|i: int| 0 <= i < s.len() && (#[trigger] s[i]).0 == k {
            let i = choose|i: int| 0 <= i < s.len() && (#[trigger] s[i]).0 == k;
            if i < s.len() - 1 {
                assert(s.drop_last()[i].0 == k);
            }
        }
    }
}

pub proof fn lemma_map_of_index<K, V>(s: Seq<(K, V)>, i: int)
    requires
        unique_keys(s),
        0 <= i < s.len(),
    ensures
        map_of(s).contains_key(s[i].0),
        map_of(s)[s[i].0] == s[i].1,
    decreases s.len(),
{
    if i == s.len() - 1 {
    } else {
        assert(unique_keys(s.drop_last()));
        lemma_map_of_index(s.drop_last(), i);
        assert(s.drop_last()[i] == s[i]);
        assert(s[i].0 != s.last().0);
    }
}

pub proof fn lemma_map_of_update<K, V>(s: Seq<(K, V)>, i: int, v2: V)
    requires
        unique_keys(s),
        0 <= i < s.len(),
    ensures
        map_of(s.update(i, (s[i].0, v2))) == map_of(s).insert(s[i].0, v2),
    decreases s.len(),
{
    let k = s[i].0;
    let s2 = s.update(i, (k, v2));
    if i == s.len() - 1 {
        assert(s2.drop_last() =~= s.drop_last());
        assert(s2.last() == (k, v2));
        assert(map_of(s.drop_last()).insert(k, v2) =~= map_of(s).insert(k, v2));
    } else {
        assert(unique_keys(s.drop_last()));
        assert(s.drop_last()[i] == s[i]);
        lemma_map_of_update(s.drop_last(), i, v2);
        assert(s2.drop_last() =~= s.drop_last().update(i, (k, v2)));
        assert(s2.last() == s.last());
        assert(k != s.last().0);
        assert(map_of(s.drop_last()).insert(k, v2).insert(s.last().0, s.last().1)
            =~= map_of(s).insert(k, v2));
    }
}

pub proof fn lemma_map_of_push<K, V>(s: Seq<(K, V)>, e: (K, V))
    ensures
        map_of(s.push(e)) == map_of(s).insert(e.0, e.1),
{
    assert(s.push(e).drop_last() =~= s);
    assert(s.push(e).last() == e);
}

/// A list with unique keys carries exactly the entries of its map.
pub proof fn lemma_entries_match<K, V>(s: Seq<(K, V)>)
    requires
        unique_keys(s),
    ensures
        entries_match(s, map_of(s)),
{
    assert forall|i: int| 0 <= i < s.len() implies map_of(s).contains_key(
        (#[trigger] s[i]).0) && map_of(s)[s[i].0] == s[i].1 by {
        lemma_map_of_index(s, i);
    }
    assert forall|k: K| map_of(s).contains_key(k) implies exists|i: int| 0 <= i < s.len()
        && (#[trigger] s[i]).0 == k by {
        lemma_map_of_contains(s, k);
    }
}

/// A list transformed entry-wise, keys kept, denotes the pointwise
/// transformed map.
pub proof fn lemma_map_of_transform<K, V, W>(s: Seq<(K, V)>, s2: Seq<(K, W)>,
    f: spec_fn(K, V) -> W)
    requires
        unique_keys(s),
        s2.len() == s.len(),
        forall|i: int| 0 <= i < s.len() ==> (#[trigger] s2[i]) == ((#[trigger] s[i]).0, f(
            s[i].0, s[i].1)),
    ensures
        map_of(s2) == Map::new(
            |k: K| map_of(s).contains_key(k),
            |k: K| f(k, map_of(s)[k]),
        ),
    decreases s.len(),
{
    let target = Map::new(|k: K| map_of(s).contains_key(k), |k: K| f(k, map_of(s)[k]));
    if s.len() == 0 {
        assert(map_of(s2) =~= target);
    } else {
        assert(unique_keys(s.drop_last()));
        assert(forall|i: int| 0 <= i < s.drop_last().len() ==> (#[trigger] s2.drop_last()[i])
            == ((#[trigger] s.drop_last()[i]).0, f(s.drop_last()[i].0, s.drop_last()[i].1)));
        lemma_map_of_transform(s.drop_last(), s2.drop_last(), f);
        assert(s2.last() == (s.last().0, f(s.last().0, s.last().1)));
        assert(s2[s2.len() - 1] == s2.last());
        assert forall|i: int| 0 <= i < s.len() - 1 implies (#[trigger] s[i]).0 != s.last().0
            by {}
        assert(map_of(s2) =~= target) by {
            lemma_map_of_index(s, s.len() - 1);
            assert forall|k: K| map_of(s2).contains_key(k) implies map_of(s2)[k] == target[k]
                && target.contains_key(k) by {
                lemma_map_of_contains(s.drop_last(), k);
                lemma_map_of_contains(s, k);
                if k == s.last().0 {
                } else {
                    let i = choose|i: int| 0 <= i < s.drop_last().len()
                        && (#[trigger] s.drop_last()[i]).0 == k;
                    lemma_map_of_index(s.drop_last(), i);
                    lemma_map_of_index(s, i);
                }
            }
            assert forall|k: K| target.contains_key(k) implies map_of(s2).contains_key(k) by {
                lemma_map_of_contains(s, k);
                lemma_map_of_contains(s.drop_last(), k);
            }
        }
    }
}

// ------------------------------------------------------------ copy helpers

/// Byte-for-byte copy of a byte vector.
pub fn copy_bytes(v: &Vec<u8>) -> (r: Vec<u8>)
    ensures
        r@ == v@,
{
    let mut out: Vec<u8> = Vec::new();
    let mut i: usize = 0;
    while i < v.len()
        invariant
            i <= v@.len(),
            out@ == v@.subrange(0, i as int),
        decreases v.len() - i,
    {
        out.push(v[i]);
        proof {
            assert(out@ =~= v@.subrange(0, i as int + 1));
        }
        i += 1;
    }
    proof {
        assert(v@.subrange(0, v@.len() as int) =~= v@);
    }
    out
}

/// A copy of a genesis with the same content.
fn copy_genesis(g: &Genesis) -> (r: Genesis)
    ensures
        r@ == g@,
{
    let r = Genesis { schema_id: g.schema_id, testnet: g.testnet, payload: copy_bytes(
        &g.payload) };
    proof {
        assert(r@ =~= g@);
    }
    r
}

/// A copy of a persisted state value with the same content.
fn copy_persisted(p: &PersistedState) -> (r: PersistedState)
    ensures
        r@ == p@,
{
    match p {
        PersistedState::Void => PersistedState::Void,
        PersistedState::Amount(a, b, t) => PersistedState::Amount(*a, *b, *t),
        PersistedState::Data(d, salt) => PersistedState::Data(copy_bytes(d), *salt),
        PersistedState::Attachment(id, salt) => PersistedState::Attachment(*id, *salt),
    }
}

/// Copy of a list of order entries.
fn copy_ord_entries(v: &Vec<(Id, WitnessOrd)>) -> (r: Vec<(Id, WitnessOrd)>)
    ensures
        r@ == v@,
{
    let mut out: Vec<(Id, WitnessOrd)> = Vec::new();
    let mut i: usize = 0;
    while i < v.len()
        invariant
            i <= v@.len(),
            out@ == v@.subrange(0, i as int),
        decreases v.len() - i,
    {
        out.push(v[i]);
        proof {
            assert(out@ =~= v@.subrange(0, i as int + 1));
        }
        i += 1;
    }
    proof {
        assert(v@.subrange(0, v@.len() as int) =~= v@);
    }
    out
}

/// The views of assignment entries, under which the model sees them.
pub open spec fn viewed_assigns(s: Seq<(Opout, PersistedState)>) -> Seq<(Opout,
    PersistedStateV)> {
    s.map_values(|e: (Opout, PersistedState)| (e.0, e.1@))
}

/// Copy of a list of assignment entries, content-equal.
fn copy_assign_entries(v: &Vec<(Opout, PersistedState)>) -> (r: Vec<(Opout, PersistedState)>)
    ensures
        r@.len() == v@.len(),
        forall|i: int| 0 <= i < v@.len() ==> (#[trigger] r@[i]).0 == v@[i].0 && r@[i].1@
            == v@[i].1@,
{
    let mut out: Vec<(Opout, PersistedState)> = Vec::new();
    let mut i: usize = 0;
    while i < v.len()
        invariant
            i <= v@.len(),
            out@.len() == i,
            forall|j: int| 0 <= j < i ==> (#[trigger] out@[j]).0 == v@[j].0 && out@[j].1@
                == v@[j].1@,
        decreases v.len() - i,
    {
        let st = copy_persisted(&v[i].1);
        out.push((v[i].0, st));
        i += 1;
    }
    out
}

// ------------------------------------------------------ in-memory provider

/// One contract's state as the in-memory provider stores it.
pub struct MemContract {
    schema_payload: Vec<u8>,
    genesis: Genesis,
    ops: Vec<(OpId, WitnessOrd)>,
    exts: Vec<(OpId, WitnessOrd)>,
    assigns: Vec<(Opout, PersistedState)>,
}

impl MemContract {
    /// The model this stored state denotes.
    pub closed spec fn model(self) -> ContractModel {
        ContractModel {
            schema: self.schema_payload@,
            genesis: self.genesis@,
            ops: map_of(self.ops@),
            exts: map_of(self.exts@),
            assigns: map_of(viewed_assigns(self.assigns@)),
        }
    }

    /// Internal consistency: unique keys everywhere, and every output
    /// belongs to a known operation.
    pub closed spec fn inv(self) -> bool {
        &&& unique_keys(self.ops@)
        &&& unique_keys(self.exts@)
        &&& unique_keys(self.assigns@)
        &&& forall|i: int| 0 <= i < self.assigns@.len() ==> exists|j: int| 0 <= j
            < self.ops@.len() && (#[trigger] self.assigns@[i]).0.op == (#[trigger] self.ops@[
            j]).0
    }
}

/// The key-model pairs a contract list denotes.
pub open spec fn entry_models(s: Seq<(ContractId, MemContract)>) -> Seq<(ContractId,
    ContractModel)> {
    s.map_values(|e: (ContractId, MemContract)| (e.0, e.1.model()))
}

pub open spec fn contracts_inv(s: Seq<(ContractId, MemContract)>) -> bool {
    &&& unique_keys(s)
    &&& forall|i: int| 0 <= i < s.len() ==> (#[trigger] s[i]).1.inv()
}

/// A storage backend held entirely in memory: the reference implementation
/// of the provider contract.
pub struct MemProvider {
    contracts: Vec<(ContractId, MemContract)>,
    saved_contracts: Vec<(ContractId, MemContract)>,
}

impl MemProvider {
    #[verifier::type_invariant]
    closed spec fn inv(self) -> bool {
        contracts_inv(self.contracts@) && contracts_inv(self.saved_contracts@)
    }

    /// An empty provider: no contracts, nothing saved.
    pub fn new() -> (r: MemProvider)
        ensures
            r.model() == Map::<ContractId, ContractModel>::empty(),
            r.saved() == Map::<ContractId, ContractModel>::empty(),
    {
        let r = MemProvider { contracts: Vec::new(), saved_contracts: Vec::new() };
        proof {
            assert(entry_models(r.contracts@) =~= Seq::<(ContractId, ContractModel)>::empty());
            assert(entry_models(r.saved_contracts@) =~= Seq::<(ContractId,
                ContractModel)>::empty());
        }
        r
    }
}

/// Unique keys survive the passage to models (the keys are the same).
proof fn lemma_entry_models_keys(s: Seq<(ContractId, MemContract)>)
    ensures
        entry_models(s).len() == s.len(),
        forall|i: int| 0 <= i < s.len() ==> (#[trigger] entry_models(s)[i]) == ((
            #[trigger] s[i]).0, s[i].1.model()),
        unique_keys(s) ==> unique_keys(entry_models(s)),
{
    assert forall|i: int| 0 <= i < s.len() implies (#[trigger] entry_models(s)[i]) == ((
        #[trigger] s[i]).0, s[i].1.model()) by {}
    if unique_keys(s) {
        assert forall|i: int, j: int| 0 <= i < j < entry_models(s).len() implies (
            #[trigger] entry_models(s)[i]).0 != (#[trigger] entry_models(s)[j]).0 by {
            assert(s[i].0 != s[j].0);
        }
    }
}

/// A content-equal copy of one stored contract.
fn copy_mem_contract(mc: &MemContract) -> (r: MemContract)
    ensures
        r.model() == mc.model(),
        mc.inv() ==> r.inv(),
{
    let r = MemContract {
        schema_payload: copy_bytes(&mc.schema_payload),
        genesis: copy_genesis(&mc.genesis),
        ops: copy_ord_entries(&mc.ops),
        exts: copy_ord_entries(&mc.exts),
        assigns: copy_assign_entries(&mc.assigns),
    };
    proof {
        assert(viewed_assigns(r.assigns@) =~= viewed_assigns(mc.assigns@));
        assert(r.model() =~= mc.model());
        if mc.inv() {
            assert forall|i: int| 0 <= i < r.assigns@.len() implies exists|j: int| 0 <= j
                < r.ops@.len() && (#[trigger] r.assigns@[i]).0.op == (#[trigger] r.ops@[j]).0
                by {
                assert(r.assigns@[i].0 == mc.assigns@[i].0);
                let j = choose|j: int| 0 <= j < mc.ops@.len() && mc.assigns@[i].0.op == (
                    #[trigger] mc.ops@[j]).0;
                assert(r.ops@[j].0 == mc.ops@[j].0);
            }
            assert forall|i: int, j: int| 0 <= i < j < r.assigns@.len() implies (
                #[trigger] r.assigns@[i]).0 != (#[trigger] r.assigns@[j]).0 by {
                assert(mc.assigns@[i].0 != mc.assigns@[j].0);
            }
        }
    }
    r
}

/// A content-equal copy of the whole contract list.
fn copy_contracts(v: &Vec<(ContractId, MemContract)>) -> (r: Vec<(ContractId, MemContract)>)
    ensures
        r@.len() == v@.len(),
        forall|i: int| 0 <= i < v@.len() ==> (#[trigger] r@[i]).0 == v@[i].0 && r@[i].1.model()
            == v@[i].1.model(),
        contracts_inv(v@) ==> contracts_inv(r@),
{
    let mut out: Vec<(ContractId, MemContract)> = Vec::new();
    let mut i: usize = 0;
    while i < v.len()
        invariant
            i <= v@.len(),
            out@.len() == i,
            forall|j: int| 0 <= j < i ==> (#[trigger] out@[j]).0 == v@[j].0
                && out@[j].1.model() == v@[j].1.model(),
            forall|j: int| 0 <= j < i ==> (v@[j].1.inv() ==> (#[trigger] out@[j]).1.inv()),
        decreases v.len() - i,
    {
        let mc = copy_mem_contract(&v[i].1);
        out.push((v[i].0, mc));
        i += 1;
    }
    proof {
        if contracts_inv(v@) {
            assert forall|a: int, b: int| 0 <= a < b < out@.len() implies (
                #[trigger] out@[a]).0 != (#[trigger] out@[b]).0 by {
                assert(v@[a].0 != v@[b].0);
            }
        }
    }
    out
}

/// Concatenating output entries denotes union with the output prefix map.
proof fn lemma_map_of_outputs(base: Seq<(Opout, PersistedStateV)>, app: Seq<(Opout,
    PersistedStateV)>, t: Transition, n: int)
    requires
        app.len() == n,
        0 <= n <= t.assignments@.len(),
        forall|j: int| 0 <= j < n ==> (#[trigger] app[j]) == (Opout {
            op: transition_id_spec(t),
            ty: t.assignments@[j].ty,
            no: j as u16,
        }, t.assignments@[j].state@),
    ensures
        map_of(base + app) == map_of(base).union_prefer_right(outputs_prefix(t, n)),
    decreases n,
{
    if n == 0 {
        assert(base + app =~= base);
        assert(outputs_prefix(t, 0) == Map::<Opout, PersistedStateV>::empty());
        assert(map_of(base).union_prefer_right(Map::empty()) =~= map_of(base));
    } else {
        assert((base + app).drop_last() =~= base + app.drop_last());
        lemma_map_of_outputs(base, app.drop_last(), t, n - 1);
        let e = app[n - 1];
        assert((base + app).last() == e);
        assert(outputs_prefix(t, n) == outputs_prefix(t, n - 1).insert(e.0, e.1));
        assert(map_of(base).union_prefer_right(outputs_prefix(t, n - 1)).insert(e.0, e.1)
            =~= map_of(base).union_prefer_right(outputs_prefix(t, n)));
    }
}

impl StateReadProvider for MemProvider {
    closed spec fn read_model(&self) -> Map<ContractId, ContractModel> {
        map_of(entry_models(self.contracts@))
    }

    fn contract_state(&self, contract_id: ContractId) -> (r: Result<ContractSnapshot,
        ProviderError>) {
        proof {
            use_type_invariant(&*self);
            lemma_entry_models_keys(self.contracts@);
        }
        match find_key(&self.contracts, &contract_id) {
            None => Err(ProviderError::Connectivity),
            Some(i) => {
                proof {
                    lemma_map_of_contains(entry_models(self.contracts@), contract_id);
                    lemma_map_of_index(entry_models(self.contracts@), i as int);
                }
                let mc = &self.contracts[i].1;
                let mut buf: Vec<u8> = Vec::new();
                crate::codec::push_bytes(&mut buf, &mc.schema_payload);
                proof {
                    assert(buf@ =~= crate::codec::enc_bytes(mc.schema_payload@));
                }
                let sid = crate::commit::digest_id(crate::commit::TAG_SCHEMA, &buf);
                let ops = copy_ord_entries(&mc.ops);
                let exts = copy_ord_entries(&mc.exts);
                let assigns = copy_assign_entries(&mc.assigns);
                proof {
                    lemma_entries_match(mc.ops@);
                    lemma_entries_match(mc.exts@);
                    let vs = viewed_assigns(mc.assigns@);
                    assert forall|a: int, b: int| 0 <= a < b < vs.len() implies (
                        #[trigger] vs[a]).0 != (#[trigger] vs[b]).0 by {
                        assert(mc.assigns@[a].0 != mc.assigns@[b].0);
                    }
                    lemma_entries_match(vs);
                    assert forall|j: int| 0 <= j < assigns@.len() implies map_of(
                        vs).contains_key((#[trigger] assigns@[j]).0) && map_of(vs)[assigns@[
                        j].0] == assigns@[j].1@ by {
                        assert(vs[j] == (mc.assigns@[j].0, mc.assigns@[j].1@));
                    }
                    assert forall|k: Opout| map_of(vs).contains_key(k) implies exists|j: int|
                        0 <= j < assigns@.len() && (#[trigger] assigns@[j]).0 == k by {
                        let j = choose|j: int| 0 <= j < vs.len() && (#[trigger] vs[j]).0 == k;
                        assert(assigns@[j].0 == k);
                    }
                    assert forall|a: int, b: int| 0 <= a < b < assigns@.len() implies (
                        #[trigger] assigns@[a]).0 != (#[trigger] assigns@[b]).0 by {
                        assert(mc.assigns@[a].0 != mc.assigns@[b].0);
                    }
                }
                Ok(ContractSnapshot { contract_id, schema_id: sid, ops, exts, assigns })
            },
        }
    }
}

impl StateWriteProvider for MemProvider {
    closed spec fn model(&self) -> Map<ContractId, ContractModel> {
        map_of(entry_models(self.contracts@))
    }

    closed spec fn saved(&self) -> Map<ContractId, ContractModel> {
        map_of(entry_models(self.saved_contracts@))
    }

    fn has_contract(&self, contract_id: ContractId) -> (r: bool) {
        proof {
            use_type_invariant(&*self);
            lemma_entry_models_keys(self.contracts@);
            lemma_map_of_contains(entry_models(self.contracts@), contract_id);
        }
        match find_key(&self.contracts, &contract_id) {
            Some(i) => {
                proof {
                    assert(entry_models(self.contracts@)[i as int].0 == contract_id);
                }
                true
            },
            None => {
                proof {
                    if self.model().contains_key(contract_id) {
                        let i = choose|i: int| 0 <= i < entry_models(self.contracts@).len()
                            && (#[trigger] entry_models(self.contracts@)[i]).0 == contract_id;
                        assert(self.contracts@[i].0 == contract_id);
                    }
                }
                false
            },
        }
    }

    fn register_contract(&mut self, schema: &Schema, genesis: &Genesis) -> (r: Result<(),
        ProviderError>) {
        proof {
            use_type_invariant(&*self);
            lemma_entry_models_keys(self.contracts@);
            lemma_map_of_contains(entry_models(self.contracts@), contract_id_v(genesis@));
        }
        let cid = crate::commit::contract_id_of(genesis);
        match find_key(&self.contracts, &cid) {
            Some(i) => {
                proof {
                    assert(entry_models(self.contracts@)[i as int].0 == cid);
                }
                Ok(())
            },
            None => {
                let mc = MemContract {
                    schema_payload: copy_bytes(&schema.payload),
                    genesis: copy_genesis(genesis),
                    ops: Vec::new(),
                    exts: Vec::new(),
                    assigns: Vec::new(),
                };
                proof {
                    if self.model().contains_key(cid) {
                        let i = choose|i: int| 0 <= i < entry_models(self.contracts@).len()
                            && (#[trigger] entry_models(self.contracts@)[i]).0 == cid;
                        assert(self.contracts@[i].0 == cid);
                    }
                }
                let ghost pre = self.contracts@;
                let mut c: Vec<(ContractId, MemContract)> = Vec::new();
                core::mem::swap(&mut c, &mut self.contracts);
                c.push((cid, mc));
                proof {
                    assert(viewed_assigns(mc.assigns@) =~= Seq::<(Opout,
                        PersistedStateV)>::empty());
                    assert(mc.model() =~= ContractModel {
                        schema: schema@,
                        genesis: genesis@,
                        ops: Map::empty(),
                        exts: Map::empty(),
                        assigns: Map::empty(),
                    });
                    assert(entry_models(c@) =~= entry_models(pre).push((cid,
                        mc.model())));
                    lemma_map_of_push(entry_models(pre), (cid, mc.model()));
                    assert(map_of(entry_models(c@)) == register_model(map_of(entry_models(pre)), schema@,
                        genesis@));
                    assert forall|a: int, b: int| 0 <= a < b < c@.len() implies (
                        #[trigger] c@[a]).0 != (#[trigger] c@[b]).0
                        by {
                        if b == c@.len() - 1 {
                            assert(pre[a].0 != cid);
                        } else {
                            assert(pre[a].0 != pre[b].0);
                        }
                    }
                }
                self.contracts = c;
                Ok(())
            },
        }
    }

    #[verifier::rlimit(100)]
    fn add_transition(&mut self, contract_id: ContractId, transition: &Transition,
        ord: WitnessOrd) -> (r: Result<(), ProviderError>) {
        proof {
            use_type_invariant(&*self);
            lemma_entry_models_keys(self.contracts@);
            lemma_map_of_contains(entry_models(self.contracts@), contract_id);
        }
        let idx = match find_key(&self.contracts, &contract_id) {
            Some(i) => i,
            None => {
                proof {
                    let i = choose|i: int| 0 <= i < entry_models(self.contracts@).len() && (
                        #[trigger] entry_models(self.contracts@)[i]).0 == contract_id;
                    assert(self.contracts@[i].0 == contract_id);
                    assert(false);
                }
                return Err(ProviderError::Connectivity);
            },
        };
        proof {
            lemma_map_of_index(entry_models(self.contracts@), idx as int);
        }
        let tid = crate::commit::transition_id_of(transition);
        let found = match find_key(&self.contracts[idx].1.ops, &tid) {
            Some(_) => true,
            None => false,
        };
        proof {
            lemma_map_of_contains(self.contracts@[idx as int].1.ops@, tid);
        }
        if found {
            return Ok(());
        }
        let ghost pre = self.contracts@;
        let mut c: Vec<(ContractId, MemContract)> = Vec::new();
        core::mem::swap(&mut c, &mut self.contracts);
        let entry = c.remove(idx);
        let cid2 = entry.0;
        let mut mc = entry.1;
        let ghost mc0 = mc;
        mc.ops.push((tid, ord));
        let ghost assigns0 = mc.assigns@;
        let mut k: usize = 0;
        while k < transition.assignments.len()
            invariant
                k <= transition.assignments@.len(),
                transition.assignments@.len() <= 0xFFFF,
                mc.assigns@.len() == assigns0.len() + k,
                mc.assigns@.subrange(0, assigns0.len() as int) == assigns0,
                forall|j: int| 0 <= j < k ==> viewed_assigns(mc.assigns@)[assigns0.len() + j]
                    == (Opout {
                    op: transition_id_spec(*transition),
                    ty: transition.assignments@[j].ty,
                    no: j as u16,
                }, transition.assignments@[j].state@),
                mc.ops@ == mc0.ops@.push((tid, ord)),
                mc.schema_payload == mc0.schema_payload,
                mc.genesis == mc0.genesis,
                mc.exts == mc0.exts,
                tid == transition_id_spec(*transition),
            decreases transition.assignments.len() - k,
        {
            let a = &transition.assignments[k];
            let st = copy_persisted(&a.state);
            mc.assigns.push((Opout { op: tid, ty: a.ty, no: k as u16 }, st));
            proof {
                assert(mc.assigns@.subrange(0, assigns0.len() as int) =~= assigns0);
            }
            k += 1;
        }
        c.insert(idx, (cid2, mc));
        proof {
            let t = *transition;
            let n = t.assignments@.len() as int;
            assert(c@ =~= pre.update(idx as int, (cid2, mc)));
            // the new stored contract denotes exactly the transition applied
            let base = viewed_assigns(assigns0);
            let app = viewed_assigns(mc.assigns@).subrange(assigns0.len() as int,
                mc.assigns@.len() as int);
            assert(viewed_assigns(mc.assigns@) =~= base + app);
            assert forall|j: int| 0 <= j < n implies (#[trigger] app[j]) == (Opout {
                op: transition_id_spec(t),
                ty: t.assignments@[j].ty,
                no: j as u16,
            }, t.assignments@[j].state@) by {
                assert(viewed_assigns(mc.assigns@)[assigns0.len() + j] == (Opout {
                    op: transition_id_spec(t),
                    ty: t.assignments@[j].ty,
                    no: j as u16,
                }, t.assignments@[j].state@));
            }
            lemma_map_of_outputs(base, app, t, n);
            lemma_map_of_push(mc0.ops@, (tid, ord));
            assert(mc.model() =~= ContractModel {
                ops: mc0.model().ops.insert(tid, ord),
                assigns: mc0.model().assigns.union_prefer_right(outputs_prefix(t, n)),
                ..mc0.model()
            });
            // lift to the provider model
            assert(entry_models(c@) =~= entry_models(pre).update(idx as int, (
                cid2, mc.model())));
            lemma_entry_models_keys(pre);
            lemma_map_of_update(entry_models(pre), idx as int, mc.model());
            assert(map_of(entry_models(pre))[contract_id] == mc0.model());
            assert(map_of(entry_models(c@)) == add_tr_model(map_of(entry_models(pre)), contract_id, t,
                ord));
            // the type invariant is restored
            assert forall|a: int, b: int| 0 <= a < b < c@.len() implies (
                #[trigger] c@[a]).0 != (#[trigger] c@[b]).0 by {
                assert(pre[a].0 != pre[b].0);
            }
            assert(mc.inv()) by {
                assert forall|a: int, b: int| 0 <= a < b < mc.ops@.len() implies (
                    #[trigger] mc.ops@[a]).0 != (#[trigger] mc.ops@[b]).0 by {
                    if b < mc.ops@.len() - 1 {
                        assert(mc0.ops@[a].0 != mc0.ops@[b].0);
                    } else {
                        assert(mc0.ops@[a].0 != tid);
                    }
                }
                assert forall|a: int, b: int| 0 <= a < b < mc.assigns@.len() implies (
                    #[trigger] mc.assigns@[a]).0 != (#[trigger] mc.assigns@[b]).0 by {
                    if b < assigns0.len() {
                        assert(mc0.assigns@[a].0 != mc0.assigns@[b].0);
                    } else if a >= assigns0.len() {
                        let ja = a - assigns0.len();
                        let jb = b - assigns0.len();
                        assert(viewed_assigns(mc.assigns@)[a].0.no == ja as u16);
                        assert(viewed_assigns(mc.assigns@)[b].0.no == jb as u16);
                        assert(ja < 0x10000 && jb < 0x10000);
                    } else {
                        let jb = b - assigns0.len();
                        assert(viewed_assigns(mc.assigns@)[b].0.op == tid);
                        assert(mc.assigns@[a] == mc0.assigns@[a]);
                        let j = choose|j: int| 0 <= j < mc0.ops@.len() && mc0.assigns@[a].0.op
                            == (#[trigger] mc0.ops@[j]).0;
                        assert(mc0.ops@[j].0 != tid);
                    }
                }
                assert forall|i: int| 0 <= i < mc.assigns@.len() implies exists|j: int| 0 <= j
                    < mc.ops@.len() && (#[trigger] mc.assigns@[i]).0.op == (#[trigger] mc.ops@[
                    j]).0 by {
                    if i < assigns0.len() {
                        let j = choose|j: int| 0 <= j < mc0.ops@.len() && mc0.assigns@[i].0.op
                            == (#[trigger] mc0.ops@[j]).0;
                        assert(mc.ops@[j].0 == mc0.ops@[j].0);
                    } else {
                        assert(viewed_assigns(mc.assigns@)[i].0.op == tid);
                        assert(mc.ops@[mc.ops@.len() - 1].0 == tid);
                    }
                }
            }
        }
        self.contracts = c;
        Ok(())
    }

    fn add_extension(&mut self, contract_id: ContractId, extension: &Extension,
        ord: WitnessOrd) -> (r: Result<(), ProviderError>) {
        proof {
            use_type_invariant(&*self);
            lemma_entry_models_keys(self.contracts@);
            lemma_map_of_contains(entry_models(self.contracts@), contract_id);
        }
        let idx = match find_key(&self.contracts, &contract_id) {
            Some(i) => i,
            None => {
                proof {
                    let i = choose|i: int| 0 <= i < entry_models(self.contracts@).len() && (
                        #[trigger] entry_models(self.contracts@)[i]).0 == contract_id;
                    assert(self.contracts@[i].0 == contract_id);
                    assert(false);
                }
                return Err(ProviderError::Connectivity);
            },
        };
        proof {
            lemma_map_of_index(entry_models(self.contracts@), idx as int);
        }
        let eid = crate::commit::extension_id_of(extension);
        let found = match find_key(&self.contracts[idx].1.exts, &eid) {
            Some(_) => true,
            None => false,
        };
        proof {
            lemma_map_of_contains(self.contracts@[idx as int].1.exts@, eid);
        }
        if found {
            return Ok(());
        }
        let ghost pre = self.contracts@;
        let mut c: Vec<(ContractId, MemContract)> = Vec::new();
        core::mem::swap(&mut c, &mut self.contracts);
        let entry = c.remove(idx);
        let cid2 = entry.0;
        let mut mc = entry.1;
        let ghost mc0 = mc;
        mc.exts.push((eid, ord));
        c.insert(idx, (cid2, mc));
        proof {
            assert(c@ =~= pre.update(idx as int, (cid2, mc)));
            lemma_map_of_push(mc0.exts@, (eid, ord));
            assert(viewed_assigns(mc.assigns@) =~= viewed_assigns(mc0.assigns@));
            assert(mc.model() =~= ContractModel {
                exts: mc0.model().exts.insert(eid, ord),
                ..mc0.model()
            });
            assert(entry_models(c@) =~= entry_models(pre).update(idx as int, (
                cid2, mc.model())));
            lemma_entry_models_keys(pre);
            lemma_map_of_update(entry_models(pre), idx as int, mc.model());
            assert(map_of(entry_models(pre))[contract_id] == mc0.model());
            assert(map_of(entry_models(c@)) == add_ext_model(map_of(entry_models(pre)), contract_id,
                extension_id_spec(*extension), ord));
            assert forall|a: int, b: int| 0 <= a < b < c@.len() implies (
                #[trigger] c@[a]).0 != (#[trigger] c@[b]).0 by {
                assert(pre[a].0 != pre[b].0);
            }
            assert(mc.inv()) by {
                assert forall|a: int, b: int| 0 <= a < b < mc.exts@.len() implies (
                    #[trigger] mc.exts@[a]).0 != (#[trigger] mc.exts@[b]).0 by {
                    if b < mc.exts@.len() - 1 {
                        assert(mc0.exts@[a].0 != mc0.exts@[b].0);
                    } else {
                        assert(mc0.exts@[a].0 != eid);
                    }
                }
            }
        }
        self.contracts = c;
        Ok(())
    }

    fn update_witnesses<R: ResolveWitness>(&mut self, resolver: &R, after_height: u32) -> (r:
        Result<UpdateRes, ProviderError>) {
        proof {
            use_type_invariant(&*self);
        }
        let ghost orders = |w: WitnessId| resolver.ord_of(w);
        let ghost pre = self.contracts@;
        let mut c: Vec<(ContractId, MemContract)> = Vec::new();
        core::mem::swap(&mut c, &mut self.contracts);
        let mut updated: u64 = 0;
        let mut unresolved: u64 = 0;
        let mut i: usize = 0;
        while i < c.len()
            invariant
                i <= c@.len(),
                c@.len() == pre.len(),
                contracts_inv(pre),
                forall|j: int| 0 <= j < c@.len() ==> (#[trigger] c@[j]).0 == pre[j].0,
                orders == (|w: WitnessId| resolver.ord_of(w)),
                forall|j: int| i <= j < pre.len() ==> (#[trigger] c@[j]) == pre[j],
                forall|j: int| 0 <= j < i ==> (#[trigger] c@[j]).1.model()
                    == retarget_contract_model(pre[j].1.model(), orders, after_height)
                    && c@[j].1.inv(),
            decreases c.len() - i,
        {
            let entry = c.remove(i);
            let cid2 = entry.0;
            let mc = entry.1;
            let ghost mid = c@;
            let (mc2, u, f) = retarget_mem(mc, resolver, after_height);
            c.insert(i, (cid2, mc2));
            proof {
                assert(c@ =~= mid.insert(i as int, (cid2, mc2)));
            }
            updated = bump_add(updated, u);
            unresolved = bump_add(unresolved, f);
            i += 1;
        }
        proof {
            assert forall|a: int, b: int| 0 <= a < b < c@.len() implies (
                #[trigger] c@[a]).0 != (#[trigger] c@[b]).0 by {
                assert(pre[a].0 != pre[b].0);
            }
            lemma_entry_models_keys(pre);
            lemma_entry_models_keys(c@);
            let f = |k: ContractId, cm: ContractModel| retarget_contract_model(cm, orders,
                after_height);
            assert forall|j: int| 0 <= j < pre.len() implies (#[trigger] entry_models(
                c@)[j]) == ((#[trigger] entry_models(pre)[j]).0, f(entry_models(
                pre)[j].0, entry_models(pre)[j].1)) by {
                assert(c@[j].0 == pre[j].0);
                assert(c@[j].1.model() == retarget_contract_model(
                    pre[j].1.model(), orders, after_height));
            }
            lemma_map_of_transform(entry_models(pre), entry_models(c@), f);
            assert(map_of(entry_models(c@)) =~= retarget_model(map_of(entry_models(pre)), orders,
                after_height));
        }
        self.contracts = c;
        Ok(UpdateRes { updated, unresolved })
    }

    fn begin_transaction(&mut self) -> (r: Result<(), ProviderError>) {
        proof {
            use_type_invariant(&*self);
        }
        let c = copy_contracts(&self.contracts);
        self.saved_contracts = c;
        proof {
            assert(entry_models(self.saved_contracts@) =~= entry_models(self.contracts@));
        }
        Ok(())
    }

    fn commit_transaction(&mut self) -> (r: Result<(), ProviderError>) {
        proof {
            use_type_invariant(&*self);
        }
        let c = copy_contracts(&self.contracts);
        self.saved_contracts = c;
        proof {
            assert(entry_models(self.saved_contracts@) =~= entry_models(self.contracts@));
        }
        Ok(())
    }

    fn rollback_transaction(&mut self) {
        proof {
            use_type_invariant(&*self);
        }
        let c = copy_contracts(&self.saved_contracts);
        self.contracts = c;
        proof {
            assert(entry_models(self.contracts@) =~= entry_models(self.saved_contracts@));
        }
    }
}

impl StateProvider for MemProvider {
    proof fn models_agree(&self) {
    }
}

/// The per-contract effect of a witness re-resolution pass.
pub open spec fn retarget_contract_model(
    cm: ContractModel,
    orders: spec_fn(WitnessId) -> Option<u64>,
    after_height: u32,
) -> ContractModel {
    ContractModel {
        ops: Map::new(
            |k: OpId| cm.ops.contains_key(k),
            |k: OpId| retarget_ord(cm.ops[k], orders, after_height),
        ),
        exts: Map::new(
            |k: OpId| cm.exts.contains_key(k),
            |k: OpId| retarget_ord(cm.exts[k], orders, after_height),
        ),
        ..cm
    }
}

/// Saturating increment-by.
fn bump_add(a: u64, b: u64) -> (r: u64)
    ensures
        r >= a || r == u64::MAX,
{
    if a > u64::MAX - b {
        u64::MAX
    } else {
        a + b
    }
}

/// Re-resolves one stored contract's witness orders.
fn retarget_mem<R: ResolveWitness>(mc: MemContract, resolver: &R, after_height: u32) -> (r: (
    MemContract, u64, u64))
    requires
        mc.inv(),
    ensures
        r.0.inv(),
        r.0.model() == retarget_contract_model(mc.model(), |w: WitnessId| resolver.ord_of(w),
            after_height),
{
    let ghost orders = |w: WitnessId| resolver.ord_of(w);
    let MemContract { schema_payload, genesis, ops, exts, assigns } = mc;
    let new_ops = retarget_entries(&ops, resolver, after_height);
    let new_exts = retarget_entries(&exts, resolver, after_height);
    let r = MemContract { schema_payload, genesis, ops: new_ops.0, exts: new_exts.0, assigns };
    proof {
        let f = |k: Id, o: WitnessOrd| retarget_ord(o, orders, after_height);
        lemma_map_of_transform(ops@, r.ops@, f);
        lemma_map_of_transform(exts@, r.exts@, f);
        assert(r.model() =~= retarget_contract_model(mc.model(), orders, after_height));
        assert forall|a: int, b: int| 0 <= a < b < r.ops@.len() implies (
            #[trigger] r.ops@[a]).0 != (#[trigger] r.ops@[b]).0 by {
            assert(ops@[a].0 != ops@[b].0);
        }
        assert forall|a: int, b: int| 0 <= a < b < r.exts@.len() implies (
            #[trigger] r.exts@[a]).0 != (#[trigger] r.exts@[b]).0 by {
            assert(exts@[a].0 != exts@[b].0);
        }
        assert forall|i: int| 0 <= i < r.assigns@.len() implies exists|j: int| 0 <= j
            < r.ops@.len() && (#[trigger] r.assigns@[i]).0.op == (#[trigger] r.ops@[j]).0 by {
            let j = choose|j: int| 0 <= j < ops@.len() && mc.assigns@[i].0.op == (
                #[trigger] ops@[j]).0;
            assert(r.ops@[j].0 == ops@[j].0);
        }
    }
    (r, new_ops.1, new_exts.1)
}

/// Re-resolves one order-entry list; returns it with the counts of updated
/// and still-unresolved entries.
fn retarget_entries<R: ResolveWitness>(v: &Vec<(Id, WitnessOrd)>, resolver: &R,
    after_height: u32) -> (r: (Vec<(Id, WitnessOrd)>, u64, u64))
    ensures
        r.0@.len() == v@.len(),
        forall|j: int| 0 <= j < v@.len() ==> (#[trigger] r.0@[j]) == ((#[trigger] v@[j]).0,
            retarget_ord(v@[j].1, |w: WitnessId| resolver.ord_of(w), after_height)),
{
    let ghost orders = |w: WitnessId| resolver.ord_of(w);
    let mut out: Vec<(Id, WitnessOrd)> = Vec::new();
    let mut updated: u64 = 0;
    let mut unresolved: u64 = 0;
    let mut j: usize = 0;
    while j < v.len()
        invariant
            j <= v@.len(),
            out@.len() == j,
            orders == (|w: WitnessId| resolver.ord_of(w)),
            forall|x: int| 0 <= x < j ==> (#[trigger] out@[x]) == ((#[trigger] v@[x]).0,
                retarget_ord(v@[x].1, orders, after_height)),
        decreases v.len() - j,
    {
        let e = v[j];
        let ord = e.1;
        let new_ord = if ord.pos >= after_height as u64 {
            match resolver.resolve_pub_witness_ord(ord.witness_id) {
                Ok(p) => {
                    updated = bump_add(updated, 1);
                    WitnessOrd { pos: p, witness_id: ord.witness_id }
                },
                Err(_) => {
                    unresolved = bump_add(unresolved, 1);
                    ord
                },
            }
        } else {
            ord
        };
        out.push((e.0, new_ord));
        j += 1;
    }
    (out, updated, unresolved)
}

// ------------------------------------------------------------------ engine

/// Folding a list prefix of transitions into a contract's state, each under
/// one witness order.
pub open spec fn apply_transitions_pre(
    m: Map<ContractId, ContractModel>,
    cid: ContractId,
    ts: Seq<Transition>,
    ord: WitnessOrd,
    n: int,
) -> Map<ContractId, ContractModel>
    decreases n,
{
    if n <= 0 {
        m
    } else {
        add_tr_model(apply_transitions_pre(m, cid, ts, ord, n - 1), cid, ts[n - 1], ord)
    }
}

/// Folding a whole bundle's transitions under one witness order.
pub open spec fn apply_transitions(
    m: Map<ContractId, ContractModel>,
    cid: ContractId,
    ts: Seq<Transition>,
    ord: WitnessOrd,
) -> Map<ContractId, ContractModel> {
    apply_transitions_pre(m, cid, ts, ord, ts.len() as int)
}

/// The fold keeps the contract registered, keeps every known operation, and
/// records every folded transition.
pub proof fn lemma_apply_transitions_ops(m: Map<ContractId, ContractModel>, cid: ContractId,
    ts: Seq<Transition>, ord: WitnessOrd, n: int)
    requires
        m.contains_key(cid),
        0 <= n <= ts.len(),
    ensures
        apply_transitions_pre(m, cid, ts, ord, n).contains_key(cid),
        forall|k: OpId| m[cid].ops.contains_key(k) ==> apply_transitions_pre(m, cid, ts, ord,
            n)[cid].ops.contains_key(k),
        forall|j: int| 0 <= j < n ==> apply_transitions_pre(m, cid, ts, ord,
            n)[cid].ops.contains_key(transition_id_spec(#[trigger] ts[j])),
    decreases n,
{
    if n > 0 {
        lemma_apply_transitions_ops(m, cid, ts, ord, n - 1);
    }
}

/// A fold whose every transition is already known changes nothing.
pub proof fn lemma_apply_transitions_noop(m: Map<ContractId, ContractModel>, cid: ContractId,
    ts: Seq<Transition>, ord: WitnessOrd, n: int)
    requires
        m.contains_key(cid),
        0 <= n <= ts.len(),
        forall|j: int| 0 <= j < n ==> m[cid].ops.contains_key(transition_id_spec(
            #[trigger] ts[j])),
    ensures
        apply_transitions_pre(m, cid, ts, ord, n) == m,
    decreases n,
{
    if n > 0 {
        lemma_apply_transitions_noop(m, cid, ts, ord, n - 1);
    }
}

/// Idempotent fold law: applying the same transitions under the same
/// witness order a second time leaves the contract state exactly as one
/// application left it, because every operation is then already known.
pub proof fn lemma_fold_idempotent(m: Map<ContractId, ContractModel>, cid: ContractId,
    ts: Seq<Transition>, ord: WitnessOrd)
    requires
        m.contains_key(cid),
    ensures
        apply_transitions(apply_transitions(m, cid, ts, ord), cid, ts, ord)
            == apply_transitions(m, cid, ts, ord),
{
    let m1 = apply_transitions(m, cid, ts, ord);
    lemma_apply_transitions_ops(m, cid, ts, ord, ts.len() as int);
    lemma_apply_transitions_noop(m1, cid, ts, ord, ts.len() as int);
}

/// The state engine: owns a provider and folds validated consignment data
/// into it; the only path by which external data changes persisted state.
pub struct State<P: StateProvider> {
    provider: P,
}

impl<P: StateProvider> State<P> {
    /// The provider this engine drives, for contracts.
    pub closed spec fn provider_spec(self) -> P {
        self.provider
    }

    /// The per-contract state the engine sees.
    pub open spec fn model(self) -> Map<ContractId, ContractModel> {
        self.provider_spec().model()
    }

    /// The state a rollback would restore.
    pub open spec fn saved(self) -> Map<ContractId, ContractModel> {
        self.provider_spec().saved()
    }

    /// Wraps a provider.
    pub fn new(provider: P) -> (r: State<P>)
        ensures
            r.provider_spec() == provider,
    {
        State { provider }
    }

    /// The provider, read-only.
    pub fn as_provider(&self) -> (r: &P)
        ensures
            *r == self.provider_spec(),
    {
        &self.provider
    }

    /// The provider, writable.
    pub fn as_provider_mut(&mut self) -> (r: &mut P)
        ensures
            *r == old(self).provider_spec(),
            final(self).provider_spec() == *final(r),
    {
        &mut self.provider
    }

    /// A snapshot of one contract's state.
    pub fn contract_state(&self, contract_id: ContractId) -> (r: Result<ContractSnapshot,
        StateError>)
        ensures
            match r {
                Ok(s) => self.model().contains_key(contract_id) && s.contract_id
                    == contract_id && s.schema_id == schema_id_v(self.model()[
                    contract_id].schema) && entries_match(s.ops@, self.model()[
                    contract_id].ops) && entries_match(s.exts@, self.model()[contract_id].exts)
                    && assign_entries_match(s.assigns@, self.model()[contract_id].assigns),
                Err(e) => e matches StateError::ReadProvider(_),
            },
    {
        proof {
            self.provider.models_agree();
        }
        match self.provider.contract_state(contract_id) {
            Ok(s) => Ok(s),
            Err(e) => Err(StateError::ReadProvider(e)),
        }
    }

    /// Re-resolves previously unresolved witnesses at or above a height and
    /// reorders affected state; returns a summary of what changed.
    pub fn update_witnesses<R: ResolveWitness>(&mut self, resolver: &R, after_height: u32)
        -> (r: Result<UpdateRes, StateError>)
        ensures
            match r {
                Ok(_) => final(self).model() == retarget_model(old(self).model(),
                    |w: WitnessId| resolver.ord_of(w), after_height) && final(self).saved()
                    == old(self).saved(),
                Err(e) => (e matches StateError::WriteProvider(_)) && final(self).model()
                    == old(self).model() && final(self).saved() == old(self).saved(),
            },
    {
        match self.provider.update_witnesses(resolver, after_height) {
            Ok(res) => Ok(res),
            Err(e) => Err(StateError::WriteProvider(e)),
        }
    }

    /// Opens a transaction on the provider.
    pub fn begin_transaction(&mut self) -> (r: Result<(), StateError>)
        ensures
            match r {
                Ok(()) => final(self).model() == old(self).model() && final(self).saved()
                    == old(self).model(),
                Err(e) => (e matches StateError::WriteProvider(_)) && final(self).model()
                    == old(self).model() && final(self).saved() == old(self).saved(),
            },
    {
        match self.provider.begin_transaction() {
            Ok(()) => Ok(()),
            Err(e) => Err(StateError::WriteProvider(e)),
        }
    }

    /// Commits the open transaction.
    pub fn commit_transaction(&mut self) -> (r: Result<(), StateError>)
        ensures
            match r {
                Ok(()) => final(self).model() == old(self).model() && final(self).saved()
                    == old(self).model(),
                Err(e) => (e matches StateError::WriteProvider(_)) && final(self).model()
                    == old(self).model() && final(self).saved() == old(self).saved(),
            },
    {
        match self.provider.commit_transaction() {
            Ok(()) => Ok(()),
            Err(e) => Err(StateError::WriteProvider(e)),
        }
    }

    /// Rolls back to the last transaction boundary.
    pub fn rollback_transaction(&mut self)
        ensures
            final(self).model() == old(self).saved(),
            final(self).saved() == old(self).saved(),
    {
        self.provider.rollback_transaction();
    }

    /// Folds one already-anchored bundle into a known contract: the witness
    /// order is resolved once, then every contained transition is applied
    /// under it. An unregistered contract is a hard inconsistency and the
    /// provider is not touched.
    #[verifier::rlimit(100)]
    pub fn update_from_bundle<R: ResolveWitness>(
        &mut self,
        contract_id: ContractId,
        bundle: &Bundle,
        witness_id: WitnessId,
        resolver: &R,
    ) -> (r: Result<(), StateError>)
        requires
            bundle_caps(*bundle),
        ensures
            final(self).saved() == old(self).saved(),
            match r {
                Ok(()) => old(self).model().contains_key(contract_id)
                    && resolver.ord_of(witness_id) is Some && final(self).model()
                    == apply_transitions(old(self).model(), contract_id,
                    bundle.transitions@, WitnessOrd {
                    pos: resolver.ord_of(witness_id)->Some_0,
                    witness_id,
                }),
                Err(StateError::Inconsistency(StateInconsistency::UnknownContract(id))) => id
                    == contract_id && !old(self).model().contains_key(contract_id)
                    && final(self).model() == old(self).model(),
                Err(StateError::Resolver(w, _)) => w == witness_id
                    && old(self).model().contains_key(contract_id)
                    && resolver.ord_of(witness_id) is None && final(self).model()
                    == old(self).model(),
                Err(StateError::WriteProvider(_)) => old(self).model().contains_key(
                    contract_id) && resolver.ord_of(witness_id) is Some && exists|k: int|
                    0 <= k <= bundle.transitions@.len() && final(self).model()
                    == apply_transitions_pre(old(self).model(), contract_id,
                    bundle.transitions@, WitnessOrd {
                    pos: resolver.ord_of(witness_id)->Some_0,
                    witness_id,
                }, k),
                Err(StateError::ReadProvider(_)) => false,
            },
    {
        if !self.provider.has_contract(contract_id) {
            return Err(StateError::Inconsistency(StateInconsistency::UnknownContract(
                contract_id)));
        }
        let pos = match resolver.resolve_pub_witness_ord(witness_id) {
            Ok(p) => p,
            Err(e) => {
                return Err(StateError::Resolver(witness_id, e));
            },
        };
        let ord = WitnessOrd::with(witness_id, pos);
        let ghost m0 = self.provider.model();
        let mut k: usize = 0;
        while k < bundle.transitions.len()
            invariant
                k <= bundle.transitions@.len(),
                bundle_caps(*bundle),
                m0.contains_key(contract_id),
                m0 == old(self).provider_spec().model(),
                resolver.ord_of(witness_id) == Some(pos),
                ord == (WitnessOrd { pos, witness_id }),
                self.provider.model() == apply_transitions_pre(m0, contract_id,
                    bundle.transitions@, ord, k as int),
                self.provider.saved() == old(self).provider_spec().saved(),
            decreases bundle.transitions.len() - k,
        {
            proof {
                lemma_apply_transitions_ops(m0, contract_id, bundle.transitions@, ord,
                    k as int);
            }
            match self.provider.add_transition(contract_id, &bundle.transitions[k], ord) {
                Ok(()) => {},
                Err(e) => {
                    proof {
                        assert(resolver.ord_of(witness_id) == Some(pos));
                        assert(0 <= k as int <= bundle.transitions@.len()
                            && self.provider.model() == apply_transitions_pre(m0, contract_id,
                            bundle.transitions@, WitnessOrd {
                            pos: resolver.ord_of(witness_id)->Some_0,
                            witness_id,
                        }, k as int));
                        assert(exists|j: int| 0 <= j <= bundle.transitions@.len()
                            && self.provider.model() == apply_transitions_pre(m0, contract_id,
                            bundle.transitions@, WitnessOrd {
                            pos: resolver.ord_of(witness_id)->Some_0,
                            witness_id,
                        }, j));
                    }
                    return Err(StateError::WriteProvider(e));
                },
            }
            k += 1;
        }
        Ok(())
    }
}

impl<P: StateProvider> State<P> {
    /// Folds a whole consignment: registers the contract from its genesis
    /// (idempotently), applies every bundled transition under the order its
    /// witness resolves to, then applies every extension some transition
    /// consumes, at the earliest order among its consumers. Assumes the
    /// consignment already passed validation: this is a pure fold, no second
    /// validation pass. A resolver failure or provider failure surfaces
    /// as-is and may leave a partial fold behind: run the fold inside a
    /// transaction and roll back on error.
    #[verifier::rlimit(100)]
    pub fn update_from_consignment<R: ResolveWitness>(
        &mut self,
        consignment: &Consignment,
        resolver: &R,
    ) -> (r: Result<(), StateError>)
        requires
            consignment_caps(*consignment),
        ensures
            final(self).saved() == old(self).saved(),
            ({
                let orders = |w: WitnessId| resolver.ord_of(w);
                let c = *consignment;
                let cid = contract_id_v(c.genesis@);
                let m1 = register_model(old(self).model(), c.schema@, c.genesis@);
                match r {
                    Ok(()) => all_witnesses_resolved(c, orders) && final(self).model()
                        == fold_consignment(old(self).model(), c, orders),
                    Err(StateError::Resolver(w, _)) => exists|i: int| 0 <= i
                        < c.bundles@.len() && w == (
                        #[trigger] c.bundles@[i]).pub_witness.witness_id && orders(w) is None
                        && (forall|j: int| 0 <= j < i ==> orders(
                        (#[trigger] c.bundles@[j]).pub_witness.witness_id) is Some)
                        && final(self).model() == apply_pairs(m1, cid, bws_pairs_pre(
                        c.bundles@, orders, i)),
                    Err(StateError::WriteProvider(_)) => final(self).model()
                        == old(self).model() || (exists|ps0: Seq<(Transition, WitnessOrd)>|
                        final(self).model() == apply_pairs(m1, cid, ps0)) || (exists|k: int|
                        0 <= k <= c.extensions@.len() && all_witnesses_resolved(c, orders)
                        && final(self).model() == apply_exts_pre(apply_pairs(m1, cid,
                        consignment_pairs(c, orders)), cid, c.extensions@,
                        consignment_pairs(c, orders), k)),
                    _ => false,
                }
            }),
    {
        let ghost orders = |w: WitnessId| resolver.ord_of(w);
        let cid = consignment.contract_id();
        match self.provider.register_contract(&consignment.schema, &consignment.genesis) {
            Ok(()) => {},
            Err(e) => {
                return Err(StateError::WriteProvider(e));
            },
        }
        let ghost m1 = self.provider.model();

        let mut ext_ids: Vec<Id> = Vec::new();
        let ghost fx = |x: Extension| extension_id_spec(x);
        let mut xi: usize = 0;
        while xi < consignment.extensions.len()
            invariant
                xi <= consignment.extensions@.len(),
                ext_ids@ == consignment.extensions@.subrange(0, xi as int).map_values(fx),
                fx == (|x: Extension| extension_id_spec(x)),
            decreases consignment.extensions.len() - xi,
        {
            let id = crate::commit::extension_id_of(&consignment.extensions[xi]);
            ext_ids.push(id);
            proof {
                assert(consignment.extensions@.subrange(0, xi as int + 1).map_values(fx)
                    =~= consignment.extensions@.subrange(0, xi as int).map_values(fx).push(
                    fx(consignment.extensions@[xi as int])));
            }
            xi += 1;
        }
        proof {
            assert(consignment.extensions@.subrange(0, consignment.extensions@.len() as int)
                =~= consignment.extensions@);
        }

        let mut noted: Vec<(Id, WitnessOrd)> = Vec::new();
        let ghost mut ps: Seq<(Transition, WitnessOrd)> = Seq::empty();
        proof {
            assert(map_of(noted@) =~= Map::<Id, WitnessOrd>::empty());
        }

        let mut i: usize = 0;
        while i < consignment.bundles.len()
            invariant
                i <= consignment.bundles@.len(),
                consignment_caps(*consignment),
                orders == (|w: WitnessId| resolver.ord_of(w)),
                cid == contract_id_v(consignment.genesis@),
                m1 == register_model(old(self).provider_spec().model(), consignment.schema@,
                    consignment.genesis@),
                m1.contains_key(cid),
                ext_ids@ == consignment.extensions@.map_values(|x: Extension|
                    extension_id_spec(x)),
                ps == bws_pairs_pre(consignment.bundles@, orders, i as int),
                forall|j: int| 0 <= j < i ==> orders(
                    (#[trigger] consignment.bundles@[j]).pub_witness.witness_id) is Some,
                self.provider.model() == apply_pairs_pre(m1, cid, ps, ps.len() as int),
                self.provider.saved() == old(self).provider_spec().saved(),
                unique_keys(noted@),
                forall|e: Id| ext_ids@.contains(e) ==> min_matches(map_of(noted@), e,
                    ext_min_pre(e, ps, ps.len() as int)),
            decreases consignment.bundles.len() - i,
        {
            let bw = &consignment.bundles[i];
            let wid = bw.pub_witness.to_witness_id();
            let pos = match resolver.resolve_pub_witness_ord(wid) {
                Ok(p) => p,
                Err(e) => {
                    proof {
                        let ii = i as int;
                        assert(0 <= ii < consignment.bundles@.len() && wid
                            == consignment.bundles@[ii].pub_witness.witness_id && orders(
                            wid) is None && (forall|j: int| 0 <= j < ii ==> orders((
                            #[trigger] consignment.bundles@[j]).pub_witness.witness_id)
                            is Some) && self.provider.model() == apply_pairs(m1, cid,
                            bws_pairs_pre(consignment.bundles@, orders, ii)));
                    }
                    return Err(StateError::Resolver(wid, e));
                },
            };
            let ord = WitnessOrd::with(wid, pos);
            proof {
                assert(ord == bw_ord(consignment.bundles@[i as int], orders));
            }
            let mut j: usize = 0;
            while j < bw.bundles.len()
                invariant
                    j <= bw.bundles@.len(),
                    i < consignment.bundles@.len(),
                    *bw == consignment.bundles@[i as int],
                    consignment_caps(*consignment),
                    orders == (|w: WitnessId| resolver.ord_of(w)),
                    cid == contract_id_v(consignment.genesis@),
                    m1 == register_model(old(self).provider_spec().model(),
                        consignment.schema@, consignment.genesis@),
                    m1.contains_key(cid),
                    ext_ids@ == consignment.extensions@.map_values(|x: Extension|
                        extension_id_spec(x)),
                    orders(wid) == Some(pos),
                    wid == bw.pub_witness.witness_id,
                    ord == (WitnessOrd { pos, witness_id: wid }),
                    ord == bw_ord(consignment.bundles@[i as int], orders),
                    ps == bws_pairs_pre(consignment.bundles@, orders, i as int)
                        + bundles_pairs_pre(bw.bundles@, ord, j as int),
                    self.provider.model() == apply_pairs_pre(m1, cid, ps, ps.len() as int),
                    self.provider.saved() == old(self).provider_spec().saved(),
                    unique_keys(noted@),
                    forall|e: Id| ext_ids@.contains(e) ==> min_matches(map_of(noted@), e,
                        ext_min_pre(e, ps, ps.len() as int)),
                decreases bw.bundles.len() - j,
            {
                let b = &bw.bundles[j];
                proof {
                    assert(bundle_caps(*b)) by {
                        assert(bundle_caps(consignment.bundles@[i as int].bundles@[
                            j as int]));
                    }
                }
                let mut l: usize = 0;
                while l < b.transitions.len()
                    invariant
                        l <= b.transitions@.len(),
                        i < consignment.bundles@.len(),
                        j < bw.bundles@.len(),
                        *bw == consignment.bundles@[i as int],
                        *b == bw.bundles@[j as int],
                        bundle_caps(*b),
                        orders == (|w: WitnessId| resolver.ord_of(w)),
                        cid == contract_id_v(consignment.genesis@),
                        m1 == register_model(old(self).provider_spec().model(),
                            consignment.schema@, consignment.genesis@),
                        m1.contains_key(cid),
                        ext_ids@ == consignment.extensions@.map_values(|x: Extension|
                            extension_id_spec(x)),
                        ps == bws_pairs_pre(consignment.bundles@, orders, i as int)
                            + bundles_pairs_pre(bw.bundles@, ord, j as int)
                            + b.transitions@.subrange(0, l as int).map_values(
                            |t: Transition| (t, ord)),
                        self.provider.model() == apply_pairs_pre(m1, cid, ps,
                            ps.len() as int),
                        self.provider.saved() == old(self).provider_spec().saved(),
                        unique_keys(noted@),
                        forall|e: Id| ext_ids@.contains(e) ==> min_matches(map_of(noted@), e,
                            ext_min_pre(e, ps, ps.len() as int)),
                    decreases b.transitions.len() - l,
                {
                    let t = &b.transitions[l];
                    proof {
                        lemma_apply_pairs_contains(m1, cid, ps, ps.len() as int);
                        assert(t.assignments@.len() <= 0xFFFF);
                    }
                    match self.provider.add_transition(cid, t, ord) {
                        Ok(()) => {},
                        Err(e) => {
                            proof {
                                assert(self.provider.model() == apply_pairs(m1, cid, ps));
                            }
                            return Err(StateError::WriteProvider(e));
                        },
                    }
                    proof {
                        let ps_old = ps;
                        ps = ps.push((*t, ord));
                        lemma_apply_pairs_push(m1, cid, ps_old, (*t, ord),
                            ps_old.len() as int);
                        assert(ps[ps.len() - 1] == (*t, ord));
                        assert(self.provider.model() == apply_pairs_pre(m1, cid, ps,
                            ps.len() as int));
                        assert forall|e: Id| ext_ids@.contains(e) implies min_matches(map_of(
                            noted@), e, ext_min_pre(e, ps, ps.len() - 1)) by {
                            lemma_ext_min_push(e, ps_old, (*t, ord), ps_old.len() as int);
                        }
                    }
                    note_references(&mut noted, &ext_ids, t, ord, Ghost(ps));
                    proof {
                        assert(b.transitions@.subrange(0, l as int + 1).map_values(
                            |t2: Transition| (t2, ord)) =~= b.transitions@.subrange(0,
                            l as int).map_values(|t2: Transition| (t2, ord)).push((
                            b.transitions@[l as int], ord)));
                        assert(ps =~= bws_pairs_pre(consignment.bundles@, orders, i as int)
                            + bundles_pairs_pre(bw.bundles@, ord, j as int)
                            + b.transitions@.subrange(0, l as int + 1).map_values(
                            |t2: Transition| (t2, ord)));
                    }
                    l += 1;
                }
                proof {
                    assert(b.transitions@.subrange(0, b.transitions@.len() as int)
                        =~= b.transitions@);
                    assert(bundle_pairs(bw.bundles@[j as int], ord)
                        =~= b.transitions@.subrange(0, b.transitions@.len() as int)
                        .map_values(|t2: Transition| (t2, ord)));
                    assert(bundles_pairs_pre(bw.bundles@, ord, j as int + 1)
                        == bundles_pairs_pre(bw.bundles@, ord, j as int) + bundle_pairs(
                        bw.bundles@[j as int], ord));
                    assert(ps =~= bws_pairs_pre(consignment.bundles@, orders, i as int)
                        + bundles_pairs_pre(bw.bundles@, ord, j as int + 1));
                }
                j += 1;
            }
            proof {
                assert(bw_pairs(consignment.bundles@[i as int], orders)
                    == bundles_pairs_pre(bw.bundles@, ord, bw.bundles@.len() as int));
                assert(bws_pairs_pre(consignment.bundles@, orders, i as int + 1)
                    == bws_pairs_pre(consignment.bundles@, orders, i as int) + bw_pairs(
                    consignment.bundles@[i as int], orders));
                assert(ps =~= bws_pairs_pre(consignment.bundles@, orders, i as int + 1));
            }
            i += 1;
        }
        proof {
            assert(consignment.bundles@.subrange(0, consignment.bundles@.len() as int)
                =~= consignment.bundles@);
            assert(ps == consignment_pairs(*consignment, orders));
            assert(all_witnesses_resolved(*consignment, orders));
        }
        let ghost m2 = self.provider.model();

        let mut x: usize = 0;
        while x < consignment.extensions.len()
            invariant
                x <= consignment.extensions@.len(),
                orders == (|w: WitnessId| resolver.ord_of(w)),
                cid == contract_id_v(consignment.genesis@),
                m1 == register_model(old(self).provider_spec().model(), consignment.schema@,
                    consignment.genesis@),
                m1.contains_key(cid),
                all_witnesses_resolved(*consignment, orders),
                ext_ids@ == consignment.extensions@.map_values(|x2: Extension|
                    extension_id_spec(x2)),
                ps == consignment_pairs(*consignment, orders),
                m2 == apply_pairs(m1, cid, ps),
                self.provider.model() == apply_exts_pre(m2, cid, consignment.extensions@, ps,
                    x as int),
                self.provider.saved() == old(self).provider_spec().saved(),
                unique_keys(noted@),
                forall|e: Id| ext_ids@.contains(e) ==> min_matches(map_of(noted@), e,
                    ext_min_pre(e, ps, ps.len() as int)),
            decreases consignment.extensions.len() - x,
        {
            let eid = ext_ids[x];
            proof {
                assert(eid == extension_id_spec(consignment.extensions@[x as int]));
                assert(ext_ids@.contains(eid)) by {
                    assert(ext_ids@[x as int] == eid);
                }
                lemma_apply_pairs_contains(m1, cid, ps, ps.len() as int);
                lemma_apply_exts_contains(m2, cid, consignment.extensions@, ps, x as int);
            }
            match find_key(&noted, &eid) {
                Some(idx) => {
                    proof {
                        lemma_map_of_index(noted@, idx as int);
                        lemma_map_of_contains(noted@, eid);
                        assert(ext_min(eid, ps) == Some(noted@[idx as int].1));
                    }
                    let o = noted[idx].1;
                    match self.provider.add_extension(cid, &consignment.extensions[x], o) {
                        Ok(()) => {},
                        Err(e) => {
                            proof {
                                let k = x as int;
                                assert(0 <= k <= consignment.extensions@.len()
                                    && self.provider.model() == apply_exts_pre(m2, cid,
                                    consignment.extensions@, ps, k));
                            }
                            return Err(StateError::WriteProvider(e));
                        },
                    }
                },
                None => {
                    proof {
                        lemma_map_of_contains(noted@, eid);
                        if exists|w: int| 0 <= w < noted@.len() && (#[trigger] noted@[w]).0
                            == eid {
                            let w = choose|w: int| 0 <= w < noted@.len() && (
                                #[trigger] noted@[w]).0 == eid;
                            assert(noted@[w].0 != eid);
                        }
                        assert(ext_min(eid, ps) is None);
                    }
                },
            }
            x += 1;
        }
        Ok(())
    }
}

// -------------------------------------------------- consignment-level fold

/// The order key a bundled witness resolves to (meaningful only where the
/// resolver answers for its witness).
pub open spec fn bw_ord(bw: BundledWitness, orders: spec_fn(WitnessId) -> Option<u64>)
    -> WitnessOrd {
    WitnessOrd {
        pos: orders(bw.pub_witness.witness_id)->Some_0,
        witness_id: bw.pub_witness.witness_id,
    }
}

/// The transition/order pairs of one bundle, all under one order.
pub open spec fn bundle_pairs(b: Bundle, ord: WitnessOrd) -> Seq<(Transition, WitnessOrd)> {
    b.transitions@.map_values(|t: Transition| (t, ord))
}

pub open spec fn bundles_pairs_pre(bs: Seq<Bundle>, ord: WitnessOrd, n: int) -> Seq<(
    Transition, WitnessOrd)>
    decreases n,
{
    if n <= 0 {
        Seq::empty()
    } else {
        bundles_pairs_pre(bs, ord, n - 1) + bundle_pairs(bs[n - 1], ord)
    }
}

/// The pairs of one bundled witness.
pub open spec fn bw_pairs(bw: BundledWitness, orders: spec_fn(WitnessId) -> Option<u64>)
    -> Seq<(Transition, WitnessOrd)> {
    bundles_pairs_pre(bw.bundles@, bw_ord(bw, orders), bw.bundles@.len() as int)
}

pub open spec fn bws_pairs_pre(bws: Seq<BundledWitness>, orders: spec_fn(WitnessId) -> Option<
    u64>, n: int) -> Seq<(Transition, WitnessOrd)>
    decreases n,
{
    if n <= 0 {
        Seq::empty()
    } else {
        bws_pairs_pre(bws, orders, n - 1) + bw_pairs(bws[n - 1], orders)
    }
}

/// Every transition of a consignment, paired with the order its bundled
/// witness resolves to, in container order.
pub open spec fn consignment_pairs(c: Consignment, orders: spec_fn(WitnessId) -> Option<u64>)
    -> Seq<(Transition, WitnessOrd)> {
    bws_pairs_pre(c.bundles@, orders, c.bundles@.len() as int)
}

/// Every bundled witness of the consignment resolves.
pub open spec fn all_witnesses_resolved(c: Consignment, orders: spec_fn(WitnessId) -> Option<
    u64>) -> bool {
    forall|i: int| 0 <= i < c.bundles@.len() ==> orders(
        (#[trigger] c.bundles@[i]).pub_witness.witness_id) is Some
}

/// Folding a prefix of transition/order pairs.
pub open spec fn apply_pairs_pre(
    m: Map<ContractId, ContractModel>,
    cid: ContractId,
    ps: Seq<(Transition, WitnessOrd)>,
    n: int,
) -> Map<ContractId, ContractModel>
    decreases n,
{
    if n <= 0 {
        m
    } else {
        add_tr_model(apply_pairs_pre(m, cid, ps, n - 1), cid, ps[n - 1].0, ps[n - 1].1)
    }
}

pub open spec fn apply_pairs(m: Map<ContractId, ContractModel>, cid: ContractId, ps: Seq<(
    Transition, WitnessOrd)>) -> Map<ContractId, ContractModel> {
    apply_pairs_pre(m, cid, ps, ps.len() as int)
}

/// A prefix fold ignores what lies beyond the prefix.
pub proof fn lemma_apply_pairs_push(m: Map<ContractId, ContractModel>, cid: ContractId,
    ps: Seq<(Transition, WitnessOrd)>, p: (Transition, WitnessOrd), n: int)
    requires
        0 <= n <= ps.len(),
    ensures
        apply_pairs_pre(m, cid, ps.push(p), n) == apply_pairs_pre(m, cid, ps, n),
    decreases n,
{
    if n > 0 {
        lemma_apply_pairs_push(m, cid, ps, p, n - 1);
        assert(ps.push(p)[n - 1] == ps[n - 1]);
    }
}

/// The pair fold keeps the contract registered.
pub proof fn lemma_apply_pairs_contains(m: Map<ContractId, ContractModel>, cid: ContractId,
    ps: Seq<(Transition, WitnessOrd)>, n: int)
    requires
        m.contains_key(cid),
        0 <= n,
    ensures
        apply_pairs_pre(m, cid, ps, n).contains_key(cid),
    decreases n,
{
    if n > 0 {
        lemma_apply_pairs_contains(m, cid, ps, n - 1);
    }
}

/// Whether a transition consumes an output of the given operation.
pub open spec fn references(t: Transition, e: OpId) -> bool {
    exists|i: int| 0 <= i < t.inputs@.len() && (#[trigger] t.inputs@[i]).op == e
}

/// The earliest order among the first `n` pairs whose transition consumes
/// the extension, if any does.
pub open spec fn ext_min_pre(e: OpId, ps: Seq<(Transition, WitnessOrd)>, n: int) -> Option<
    WitnessOrd>
    decreases n,
{
    if n <= 0 {
        None
    } else {
        let prev = ext_min_pre(e, ps, n - 1);
        if references(ps[n - 1].0, e) {
            match prev {
                None => Some(ps[n - 1].1),
                Some(o) => Some(wo_min(o, ps[n - 1].1)),
            }
        } else {
            prev
        }
    }
}

/// The order at which a used extension is applied: the minimum over every
/// transition consuming it.
pub open spec fn ext_min(e: OpId, ps: Seq<(Transition, WitnessOrd)>) -> Option<WitnessOrd> {
    ext_min_pre(e, ps, ps.len() as int)
}

pub proof fn lemma_ext_min_push(e: OpId, ps: Seq<(Transition, WitnessOrd)>, p: (Transition,
    WitnessOrd), n: int)
    requires
        0 <= n <= ps.len(),
    ensures
        ext_min_pre(e, ps.push(p), n) == ext_min_pre(e, ps, n),
    decreases n,
{
    if n > 0 {
        lemma_ext_min_push(e, ps, p, n - 1);
        assert(ps.push(p)[n - 1] == ps[n - 1]);
    }
}

/// Extension ordering law: an extension is recorded exactly when some
/// folded transition consumes it, and then at an order that some consuming
/// transition carries and that no consuming transition undercuts — the
/// earliest relevant order, whatever position the consuming transitions
/// take in the fold.
pub proof fn lemma_extension_min_order(e: OpId, ps: Seq<(Transition, WitnessOrd)>, n: int)
    requires
        0 <= n <= ps.len(),
    ensures
        (ext_min_pre(e, ps, n) is None) <==> (forall|i: int| 0 <= i < n ==> !references(
            (#[trigger] ps[i]).0, e)),
        ext_min_pre(e, ps, n) is Some ==> exists|i: int| 0 <= i < n && references(
            (#[trigger] ps[i]).0, e) && ps[i].1 == ext_min_pre(e, ps, n)->Some_0,
        forall|i: int| 0 <= i < n && references((#[trigger] ps[i]).0, e) ==> (ext_min_pre(e,
            ps, n) is Some && !ps[i].1.lt_spec(ext_min_pre(e, ps, n)->Some_0)),
    decreases n,
{
    if n > 0 {
        lemma_extension_min_order(e, ps, n - 1);
        let prev = ext_min_pre(e, ps, n - 1);
        let cur = ext_min_pre(e, ps, n);
        if references(ps[n - 1].0, e) {
            assert(cur is Some);
            if prev is Some {
                assert(cur->Some_0 == wo_min(prev->Some_0, ps[n - 1].1));
            }
        }
        if cur is Some {
            if references(ps[n - 1].0, e) && (prev is None || cur->Some_0 == ps[n - 1].1) {
                assert(0 <= n - 1 < n && references(ps[n - 1].0, e) && ps[n - 1].1
                    == cur->Some_0);
            } else {
                let i = choose|i: int| 0 <= i < n - 1 && references((#[trigger] ps[i]).0, e)
                    && ps[i].1 == prev->Some_0;
                if cur->Some_0 == prev->Some_0 {
                    assert(0 <= i < n && references(ps[i].0, e) && ps[i].1 == cur->Some_0);
                }
            }
        }
    }
}

/// Folding a prefix of the extension list: each extension that some folded
/// transition consumes is applied at its earliest relevant order; unused
/// extensions are never applied.
pub open spec fn apply_exts_pre(
    m: Map<ContractId, ContractModel>,
    cid: ContractId,
    exts: Seq<Extension>,
    ps: Seq<(Transition, WitnessOrd)>,
    n: int,
) -> Map<ContractId, ContractModel>
    decreases n,
{
    if n <= 0 {
        m
    } else {
        let m2 = apply_exts_pre(m, cid, exts, ps, n - 1);
        let eid = extension_id_spec(exts[n - 1]);
        match ext_min(eid, ps) {
            Some(o) => add_ext_model(m2, cid, eid, o),
            None => m2,
        }
    }
}

pub proof fn lemma_apply_exts_contains(m: Map<ContractId, ContractModel>, cid: ContractId,
    exts: Seq<Extension>, ps: Seq<(Transition, WitnessOrd)>, n: int)
    requires
        m.contains_key(cid),
        0 <= n,
    ensures
        apply_exts_pre(m, cid, exts, ps, n).contains_key(cid),
    decreases n,
{
    if n > 0 {
        lemma_apply_exts_contains(m, cid, exts, ps, n - 1);
    }
}

/// The whole fold of a consignment into provider state: registration, every
/// transition under its witness order, then every used extension at its
/// earliest relevant order.
pub open spec fn fold_consignment(m: Map<ContractId, ContractModel>, c: Consignment,
    orders: spec_fn(WitnessId) -> Option<u64>) -> Map<ContractId, ContractModel> {
    let m1 = register_model(m, c.schema@, c.genesis@);
    let cid = contract_id_v(c.genesis@);
    let ps = consignment_pairs(c, orders);
    apply_exts_pre(apply_pairs(m1, cid, ps), cid, c.extensions@, ps, c.extensions@.len()
        as int)
}

/// One noted minimum agrees with the spec-level minimum.
pub open spec fn min_matches(m: Map<Id, WitnessOrd>, e: Id, opt: Option<WitnessOrd>) -> bool {
    match opt {
        Some(o) => m.contains_key(e) && m[e] == o,
        None => !m.contains_key(e),
    }
}

/// Whether a transition consumes an output of the given operation.
fn references_exec(t: &Transition, e: &Id) -> (r: bool)
    ensures
        r == references(*t, *e),
{
    let mut i: usize = 0;
    while i < t.inputs.len()
        invariant
            i <= t.inputs@.len(),
            forall|j: int| 0 <= j < i ==> (#[trigger] t.inputs@[j]).op != *e,
        decreases t.inputs.len() - i,
    {
        if t.inputs[i].op == *e {
            return true;
        }
        i += 1;
    }
    proof {
        if references(*t, *e) {
            let j = choose|j: int| 0 <= j < t.inputs@.len() && (#[trigger] t.inputs@[j]).op
                == *e;
            assert(t.inputs@[j].op != *e);
        }
    }
    false
}

/// Carries the noted per-extension minima over one more folded pair (the
/// last of `ps`).
#[verifier::rlimit(60)]
fn note_references(noted: &mut Vec<(Id, WitnessOrd)>, ext_ids: &Vec<Id>, t: &Transition,
    ord: WitnessOrd, ps: Ghost<Seq<(Transition, WitnessOrd)>>)
    requires
        ps@.len() >= 1,
        ps@.last() == (*t, ord),
        unique_keys(old(noted)@),
        forall|e: Id| ext_ids@.contains(e) ==> min_matches(map_of(old(noted)@), e,
            ext_min_pre(e, ps@, ps@.len() - 1)),
    ensures
        unique_keys(final(noted)@),
        forall|e: Id| ext_ids@.contains(e) ==> min_matches(map_of(final(noted)@), e,
            ext_min_pre(e, ps@, ps@.len() as int)),
        forall|e: Id| !ext_ids@.contains(e) && !map_of(old(noted)@).contains_key(e)
            ==> !map_of(final(noted)@).contains_key(e),
{
    let ghost n = ps@.len() as int;
    let mut a: usize = 0;
    while a < ext_ids.len()
        invariant
            a <= ext_ids@.len(),
            ps@.len() >= 1,
            ps@.last() == (*t, ord),
            n == ps@.len() as int,
            unique_keys(noted@),
            forall|e: Id| ext_ids@.subrange(0, a as int).contains(e) ==> min_matches(map_of(
                noted@), e, ext_min_pre(e, ps@, n)),
            forall|e: Id| ext_ids@.contains(e) && !ext_ids@.subrange(0, a as int).contains(e)
                ==> min_matches(map_of(noted@), e, ext_min_pre(e, ps@, n - 1)),
            forall|e: Id| !ext_ids@.contains(e) && !map_of(old(noted)@).contains_key(e)
                ==> !map_of(noted@).contains_key(e),
        decreases ext_ids.len() - a,
    {
        let e = ext_ids[a];
        let ghost already = ext_ids@.subrange(0, a as int).contains(e);
        let ghost prev = ext_min_pre(e, ps@, n - 1);
        let ghost cur = ext_min_pre(e, ps@, n);
        proof {
            assert(ext_ids@.contains(e)) by {
                assert(ext_ids@[a as int] == e);
            }
            assert(ps@[n - 1] == (*t, ord));
        }
        if references_exec(t, &e) {
            match find_key(noted, &e) {
                Some(idx) => {
                    proof {
                        lemma_map_of_index(noted@, idx as int);
                        lemma_map_of_contains(noted@, e);
                    }
                    let curval = noted[idx].1;
                    if ord.lt(&curval) {
                        let ghost pre = noted@;
                        let entry = noted.remove(idx);
                        noted.insert(idx, (entry.0, ord));
                        proof {
                            assert(noted@ =~= pre.update(idx as int, (pre[idx as int].0,
                                ord)));
                            lemma_map_of_update(pre, idx as int, ord);
                            assert forall|a2: int, b2: int| 0 <= a2 < b2 < noted@.len()
                                implies (#[trigger] noted@[a2]).0 != (
                                #[trigger] noted@[b2]).0 by {
                                assert(pre[a2].0 != pre[b2].0);
                            }
                        }
                    }
                },
                None => {
                    proof {
                        lemma_map_of_contains(noted@, e);
                    }
                    let ghost pre = noted@;
                    noted.push((e, ord));
                    proof {
                        lemma_map_of_push(pre, (e, ord));
                        assert forall|a2: int, b2: int| 0 <= a2 < b2 < noted@.len() implies (
                            #[trigger] noted@[a2]).0 != (#[trigger] noted@[b2]).0 by {
                            if b2 == noted@.len() - 1 {
                                assert(pre[a2].0 != e);
                            } else {
                                assert(pre[a2].0 != pre[b2].0);
                            }
                        }
                    }
                },
            }
        }
        proof {
            assert(ext_ids@.subrange(0, a as int + 1)
                =~= ext_ids@.subrange(0, a as int).push(e));
            assert forall|e2: Id| ext_ids@.subrange(0, a as int + 1).contains(e2) implies
                min_matches(map_of(noted@), e2, ext_min_pre(e2, ps@, n)) by {
                if e2 == e {
                } else {
                    assert(ext_ids@.subrange(0, a as int).contains(e2));
                }
            }
            assert(ext_ids@.subrange(0, a as int + 1).contains(e)) by {
                assert(ext_ids@.subrange(0, a as int + 1)[a as int] == e);
            }
            assert forall|e2: Id| ext_ids@.contains(e2) && !ext_ids@.subrange(0,
                a as int + 1).contains(e2) implies min_matches(map_of(noted@), e2,
                ext_min_pre(e2, ps@, n - 1)) by {
                assert(e2 != e);
                assert(!ext_ids@.subrange(0, a as int).contains(e2)) by {
                    if ext_ids@.subrange(0, a as int).contains(e2) {
                        let w = choose|w: int| 0 <= w < a && ext_ids@.subrange(0,
                            a as int)[w] == e2;
                        assert(ext_ids@.subrange(0, a as int + 1)[w] == e2);
                    }
                }
            }
        }
        a += 1;
    }
    proof {
        assert forall|e: Id| ext_ids@.contains(e) implies ext_ids@.subrange(0,
            ext_ids@.len() as int).contains(e) by {
            assert(ext_ids@.subrange(0, ext_ids@.len() as int) =~= ext_ids@);
        }
    }
}

/// Finds the index of a key in a key-value list.
fn find_key<V>(v: &Vec<(Id, V)>, k: &Id) -> (r: Option<usize>)
    ensures
        match r {
            Some(i) => i < v@.len() && v@[i as int].0 == *k,
            None => forall|i: int| 0 <= i < v@.len() ==> (#[trigger] v@[i]).0 != *k,
        },
{
    let mut i: usize = 0;
    while i < v.len()
        invariant
            i <= v@.len(),
            forall|j: int| 0 <= j < i ==> (#[trigger] v@[j]).0 != *k,
        decreases v.len() - i,
    {
        if v[i].0 == *k {
            return Some(i);
        }
        i += 1;
    }
    None
}

} // verus!
