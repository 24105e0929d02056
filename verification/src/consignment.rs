//! The consignment container: the immutable record of a contract's history,
//! its content-addressed identity and its post-construction transforms.

use vstd::prelude::*;

use crate::ids::{BundleId, ContractId, Id, SchemaId, SecretSeal};
use crate::codec::{enc_bool, enc_bytes, enc_id, enc_u8, push_bool, push_bytes, push_id,
    push_u64, push_u8};
use crate::model::{enc_each, enc_list, lemma_enc_each_push, Assignment, Bundle,
    BundledWitness, Extension, Genesis, GraphSeal, IfacePair, PersistedState, Schema,
    ScriptLib, Seal, Supplement, Transition, TypeSystem};
use crate::commit::{bundle_id_spec, conceal_seal_spec, contract_id_of, contract_id_spec,
    digest_id, digest_id_spec, enc_assignment_concealed, enc_bundle_concealed,
    enc_bundled_witness_concealed, enc_id_set, enc_transition_concealed,
    extension_disclose_spec, genesis_disclose_spec, impl_id_spec, lemma_enc_each_pointwise,
    lib_id_spec, schema_id_of, schema_id_spec, seal_secret_spec, sort_ids, suppl_id_spec,
    type_system_id_spec, witness_disclose_spec, write_id_set, TAG_CONSIGNMENT};

verus! {

/// The container format version this library produces.
pub const CONTAINER_VERSION: u8 = 2;

/// Size caps carried over from the bounded collections of the container
/// format: violating one is a structural ("resource limit") error.
pub const MAX_TERMINALS: usize = 0xFFFF;
pub const MAX_IFACES: usize = 0xFF;
pub const MAX_SUPPLEMENTS: usize = 0xFF;
pub const MAX_SCRIPT_LIBS: usize = 1024;
pub const MAX_ATTACHMENTS: usize = 0xFFFF;
pub const MAX_SIGNATURES: usize = 0xFF;

/// Contract-specific data, always starting with genesis, exchanged between
/// peers and validated client-side. `transfer` distinguishes a full-history
/// contract consignment (`false`) from a transfer consignment proving a
/// specific state-transfer path (`true`); the flag is advisory metadata and
/// checked, not trusted, by validation.
#[derive(Clone, PartialEq, Eq, Debug)]
pub struct Consignment {
    /// Container format version, carried in the commitment.
    pub version: u8,
    /// Whether this container describes a state transfer.
    pub transfer: bool,
    /// History terminals: bundle id to the secret seal closing it.
    pub terminals: Vec<(BundleId, SecretSeal)>,
    /// The contract-issuance record.
    pub genesis: Genesis,
    /// State extensions; unordered here, ordered by the engine at apply time.
    pub extensions: Vec<Extension>,
    /// Bundled state transitions with their witness data.
    pub bundles: Vec<BundledWitness>,
    /// The schema the contract is issued under.
    pub schema: Schema,
    /// Interfaces supported by the contract, with their implementations.
    pub ifaces: Vec<IfacePair>,
    /// Known supplements.
    pub supplements: Vec<Supplement>,
    /// The type system covering schema and interfaces.
    pub types: TypeSystem,
    /// Validation-script libraries, bounded in number.
    pub scripts: Vec<ScriptLib>,
    /// Data containers shipped with the consignment, keyed by attachment id.
    pub attachments: Vec<(Id, Vec<u8>)>,
    /// Content signatures, keyed by content id.
    pub signatures: Vec<(Id, Vec<u8>)>,
}

/// Keys of a keyed list are strictly ascending: sorted and duplicate-free.
pub open spec fn keys_sorted<V>(s: Seq<(Id, V)>) -> bool {
    forall|i: int, j: int| 0 <= i < j < s.len() ==> (#[trigger] s[i]).0.lt_spec(
        (#[trigger] s[j]).0)
}

impl Consignment {
    /// Structural well-formedness: the bounded collections respect their
    /// caps and the keyed lists are canonically ordered.
    pub open spec fn wf(self) -> bool {
        &&& self.terminals@.len() <= MAX_TERMINALS
        &&& keys_sorted(self.terminals@)
        &&& self.ifaces@.len() <= MAX_IFACES
        &&& self.supplements@.len() <= MAX_SUPPLEMENTS
        &&& self.scripts@.len() <= MAX_SCRIPT_LIBS
        &&& self.attachments@.len() <= MAX_ATTACHMENTS
        &&& keys_sorted(self.attachments@)
        &&& self.signatures@.len() <= MAX_SIGNATURES
        &&& keys_sorted(self.signatures@)
    }

    // -------------------------------------------------------------- identity

    /// The interface-implementation ids the container commits to.
    pub open spec fn impl_ids(self) -> Seq<Id> {
        self.ifaces@.map_values(|p: IfacePair| impl_id_spec(p.iimpl))
    }

    /// The per-bundled-witness disclose hashes the container commits to.
    pub open spec fn bundle_discloses(self) -> Seq<Id> {
        self.bundles@.map_values(|bw: BundledWitness| witness_disclose_spec(bw))
    }

    /// The per-extension disclose hashes the container commits to.
    pub open spec fn ext_discloses(self) -> Seq<Id> {
        self.extensions@.map_values(|x: Extension| extension_disclose_spec(x))
    }

    pub open spec fn attach_ids(self) -> Seq<Id> {
        self.attachments@.map_values(|e: (Id, Vec<u8>)| e.0)
    }

    pub open spec fn suppl_ids(self) -> Seq<Id> {
        self.supplements@.map_values(|s: Supplement| suppl_id_spec(s))
    }

    pub open spec fn lib_ids(self) -> Seq<Id> {
        self.scripts@.map_values(|l: ScriptLib| lib_id_spec(l))
    }

    /// The terminals mapping, committed as-is (key then value, in the
    /// container's canonical key order).
    pub open spec fn enc_terminals(self) -> Seq<u8> {
        enc_list(self.terminals@, |e: (Id, Id)| enc_id(e.0) + enc_id(e.1))
    }

    /// The signatures mapping, committed as-is.
    pub open spec fn enc_signatures(self) -> Seq<u8> {
        enc_list(self.signatures@, |e: (Id, Vec<u8>)| enc_id(e.0) + enc_bytes(e.1@))
    }

    /// The fixed-order commitment stream: version, transfer flag, contract
    /// id, genesis disclose hash, then the id *sets* (implementation ids,
    /// bundle and extension disclose hashes, attachment, supplement and
    /// script-library ids), the terminals and signatures mappings, and the
    /// type-system id. Committing sets (sorted, duplicate-free) makes the
    /// identity independent of the container's internal collection order;
    /// committing disclose hashes (concealed projections) makes it
    /// independent of which seals happen to be revealed.
    pub open spec fn commit_stream(self) -> Seq<u8> {
        enc_u8(self.version) + enc_bool(self.transfer)
            + enc_id(contract_id_spec(self.genesis))
            + enc_id(genesis_disclose_spec(self.genesis)) + enc_id_set(self.impl_ids())
            + enc_id_set(self.bundle_discloses()) + enc_id_set(self.ext_discloses())
            + self.enc_terminals() + enc_id_set(self.attach_ids())
            + enc_id_set(self.suppl_ids()) + enc_id(type_system_id_spec(self.types))
            + enc_id_set(self.lib_ids()) + self.enc_signatures()
    }

    /// The content-address of the whole consignment. The terminals and
    /// signatures mappings are committed in their stored order, which `wf`
    /// pins to the canonical sorted order: identity is canonical for
    /// well-formed containers (decode enforces `wf`; two well-formed
    /// containers of the same content always agree).
    pub open spec fn commit_id_spec(self) -> Id {
        digest_id_spec(TAG_CONSIGNMENT, self.commit_stream())
    }

    /// Computes the consignment's content-address by hashing the fixed-order
    /// commitment stream.
    pub fn consignment_id(&self) -> (r: Id)
        ensures
            r == self.commit_id_spec(),
    {
        let mut buf: Vec<u8> = Vec::new();
        push_u8(&mut buf, self.version);
        push_bool(&mut buf, self.transfer);
        let cid = contract_id_of(&self.genesis);
        push_id(&mut buf, &cid);
        let gd = crate::commit::genesis_disclose(&self.genesis);
        push_id(&mut buf, &gd);

        let iids = self.impl_ids_exec();
        write_id_set(&mut buf, &iids);
        let bds = self.bundle_discloses_exec();
        write_id_set(&mut buf, &bds);
        let xds = self.ext_discloses_exec();
        write_id_set(&mut buf, &xds);

        self.write_terminals(&mut buf);

        let aids = self.attach_ids_exec();
        write_id_set(&mut buf, &aids);
        let sids = self.suppl_ids_exec();
        write_id_set(&mut buf, &sids);
        let tid = crate::commit::type_system_id_of(&self.types);
        push_id(&mut buf, &tid);
        let lids = self.lib_ids_exec();
        write_id_set(&mut buf, &lids);
        self.write_signatures(&mut buf);

        proof {
            assert(buf@ =~= self.commit_stream());
        }
        digest_id(TAG_CONSIGNMENT, &buf)
    }

    fn impl_ids_exec(&self) -> (r: Vec<Id>)
        ensures
            r@ == self.impl_ids(),
    {
        let ghost f = |p: IfacePair| impl_id_spec(p.iimpl);
        let mut out: Vec<Id> = Vec::new();
        let mut i: usize = 0;
        while i < self.ifaces.len()
            invariant
                i <= self.ifaces@.len(),
                out@ == self.ifaces@.subrange(0, i as int).map_values(f),
                f == (|p: IfacePair| impl_id_spec(p.iimpl)),
            decreases self.ifaces.len() - i,
        {
            let id = crate::commit::impl_id_of(&self.ifaces[i].iimpl);
            out.push(id);
            proof {
                assert(self.ifaces@.subrange(0, i as int + 1).map_values(f)
                    =~= self.ifaces@.subrange(0, i as int).map_values(f).push(
                    f(self.ifaces@[i as int])));
            }
            i += 1;
        }
        proof {
            assert(self.ifaces@.subrange(0, self.ifaces@.len() as int) =~= self.ifaces@);
        }
        out
    }

    fn bundle_discloses_exec(&self) -> (r: Vec<Id>)
        ensures
            r@ == self.bundle_discloses(),
    {
        let ghost f = |bw: BundledWitness| witness_disclose_spec(bw);
        let mut out: Vec<Id> = Vec::new();
        let mut i: usize = 0;
        while i < self.bundles.len()
            invariant
                i <= self.bundles@.len(),
                out@ == self.bundles@.subrange(0, i as int).map_values(f),
                f == (|bw: BundledWitness| witness_disclose_spec(bw)),
            decreases self.bundles.len() - i,
        {
            let id = crate::commit::witness_disclose(&self.bundles[i]);
            out.push(id);
            proof {
                assert(self.bundles@.subrange(0, i as int + 1).map_values(f)
                    =~= self.bundles@.subrange(0, i as int).map_values(f).push(
                    f(self.bundles@[i as int])));
            }
            i += 1;
        }
        proof {
            assert(self.bundles@.subrange(0, self.bundles@.len() as int) =~= self.bundles@);
        }
        out
    }

    fn ext_discloses_exec(&self) -> (r: Vec<Id>)
        ensures
            r@ == self.ext_discloses(),
    {
        let ghost f = |x: Extension| extension_disclose_spec(x);
        let mut out: Vec<Id> = Vec::new();
        let mut i: usize = 0;
        while i < self.extensions.len()
            invariant
                i <= self.extensions@.len(),
                out@ == self.extensions@.subrange(0, i as int).map_values(f),
                f == (|x: Extension| extension_disclose_spec(x)),
            decreases self.extensions.len() - i,
        {
            let id = crate::commit::extension_disclose(&self.extensions[i]);
            out.push(id);
            proof {
                assert(self.extensions@.subrange(0, i as int + 1).map_values(f)
                    =~= self.extensions@.subrange(0, i as int).map_values(f).push(
                    f(self.extensions@[i as int])));
            }
            i += 1;
        }
        proof {
            assert(self.extensions@.subrange(0, self.extensions@.len() as int)
                =~= self.extensions@);
        }
        out
    }

    fn attach_ids_exec(&self) -> (r: Vec<Id>)
        ensures
            r@ == self.attach_ids(),
    {
        let ghost f = |e: (Id, Vec<u8>)| e.0;
        let mut out: Vec<Id> = Vec::new();
        let mut i: usize = 0;
        while i < self.attachments.len()
            invariant
                i <= self.attachments@.len(),
                out@ == self.attachments@.subrange(0, i as int).map_values(f),
                f == (|e: (Id, Vec<u8>)| e.0),
            decreases self.attachments.len() - i,
        {
            let id = self.attachments[i].0;
            out.push(id);
            proof {
                assert(self.attachments@.subrange(0, i as int + 1).map_values(f)
                    =~= self.attachments@.subrange(0, i as int).map_values(f).push(
                    f(self.attachments@[i as int])));
            }
            i += 1;
        }
        proof {
            assert(self.attachments@.subrange(0, self.attachments@.len() as int)
                =~= self.attachments@);
        }
        out
    }

    fn suppl_ids_exec(&self) -> (r: Vec<Id>)
        ensures
            r@ == self.suppl_ids(),
    {
        let ghost f = |s: Supplement| suppl_id_spec(s);
        let mut out: Vec<Id> = Vec::new();
        let mut i: usize = 0;
        while i < self.supplements.len()
            invariant
                i <= self.supplements@.len(),
                out@ == self.supplements@.subrange(0, i as int).map_values(f),
                f == (|s: Supplement| suppl_id_spec(s)),
            decreases self.supplements.len() - i,
        {
            let id = crate::commit::suppl_id_of(&self.supplements[i]);
            out.push(id);
            proof {
                assert(self.supplements@.subrange(0, i as int + 1).map_values(f)
                    =~= self.supplements@.subrange(0, i as int).map_values(f).push(
                    f(self.supplements@[i as int])));
            }
            i += 1;
        }
        proof {
            assert(self.supplements@.subrange(0, self.supplements@.len() as int)
                =~= self.supplements@);
        }
        out
    }

    fn lib_ids_exec(&self) -> (r: Vec<Id>)
        ensures
            r@ == self.lib_ids(),
    {
        let ghost f = |l: ScriptLib| lib_id_spec(l);
        let mut out: Vec<Id> = Vec::new();
        let mut i: usize = 0;
        while i < self.scripts.len()
            invariant
                i <= self.scripts@.len(),
                out@ == self.scripts@.subrange(0, i as int).map_values(f),
                f == (|l: ScriptLib| lib_id_spec(l)),
            decreases self.scripts.len() - i,
        {
            let id = crate::commit::lib_id_of(&self.scripts[i]);
            out.push(id);
            proof {
                assert(self.scripts@.subrange(0, i as int + 1).map_values(f)
                    =~= self.scripts@.subrange(0, i as int).map_values(f).push(
                    f(self.scripts@[i as int])));
            }
            i += 1;
        }
        proof {
            assert(self.scripts@.subrange(0, self.scripts@.len() as int) =~= self.scripts@);
        }
        out
    }

    pub fn write_terminals(&self, buf: &mut Vec<u8>)
        ensures
            final(buf)@ == old(buf)@ + self.enc_terminals(),
    {
        push_u64(buf, self.terminals.len() as u64);
        let ghost f = |e: (Id, Id)| enc_id(e.0) + enc_id(e.1);
        let ghost pre = buf@;
        let mut i: usize = 0;
        while i < self.terminals.len()
            invariant
                i <= self.terminals@.len(),
                buf@ == pre + enc_each(self.terminals@.subrange(0, i as int), f),
                f == (|e: (Id, Id)| enc_id(e.0) + enc_id(e.1)),
            decreases self.terminals.len() - i,
        {
            push_id(buf, &self.terminals[i].0);
            push_id(buf, &self.terminals[i].1);
            proof {
                lemma_enc_each_push(self.terminals@.subrange(0, i as int), f,
                    self.terminals@[i as int]);
                assert(self.terminals@.subrange(0, i as int).push(self.terminals@[i as int])
                    =~= self.terminals@.subrange(0, i as int + 1));
                assert(buf@ =~= pre + enc_each(self.terminals@.subrange(0, i as int + 1), f));
            }
            i += 1;
        }
        proof {
            assert(self.terminals@.subrange(0, self.terminals@.len() as int)
                =~= self.terminals@);
            assert(buf@ =~= old(buf)@ + self.enc_terminals());
        }
    }

    pub fn write_signatures(&self, buf: &mut Vec<u8>)
        ensures
            final(buf)@ == old(buf)@ + self.enc_signatures(),
    {
        push_u64(buf, self.signatures.len() as u64);
        let ghost f = |e: (Id, Vec<u8>)| enc_id(e.0) + enc_bytes(e.1@);
        let ghost pre = buf@;
        let mut i: usize = 0;
        while i < self.signatures.len()
            invariant
                i <= self.signatures@.len(),
                buf@ == pre + enc_each(self.signatures@.subrange(0, i as int), f),
                f == (|e: (Id, Vec<u8>)| enc_id(e.0) + enc_bytes(e.1@)),
            decreases self.signatures.len() - i,
        {
            push_id(buf, &self.signatures[i].0);
            push_bytes(buf, &self.signatures[i].1);
            proof {
                lemma_enc_each_push(self.signatures@.subrange(0, i as int), f,
                    self.signatures@[i as int]);
                assert(self.signatures@.subrange(0, i as int).push(self.signatures@[i as int])
                    =~= self.signatures@.subrange(0, i as int + 1));
                assert(buf@ =~= pre + enc_each(self.signatures@.subrange(0, i as int + 1),
                    f));
            }
            i += 1;
        }
        proof {
            assert(self.signatures@.subrange(0, self.signatures@.len() as int)
                =~= self.signatures@);
            assert(buf@ =~= old(buf)@ + self.enc_signatures());
        }
    }

    // ------------------------------------------------------------- accessors

    /// The contract this consignment describes, derived from its genesis.
    pub fn contract_id(&self) -> (r: ContractId)
        ensures
            r == contract_id_spec(self.genesis),
    {
        contract_id_of(&self.genesis)
    }

    /// The identifier of the schema the contract is issued under.
    pub fn schema_id(&self) -> (r: SchemaId)
        ensures
            r == schema_id_spec(self.schema),
    {
        schema_id_of(&self.schema)
    }

    /// The genesis record.
    pub fn genesis(&self) -> (r: &Genesis)
        ensures
            r == self.genesis,
    {
        &self.genesis
    }

    /// The schema.
    pub fn schema(&self) -> (r: &Schema)
        ensures
            r == self.schema,
    {
        &self.schema
    }

    /// All state extensions, in container order.
    pub fn extensions(&self) -> (r: &Vec<Extension>)
        ensures
            r == self.extensions,
    {
        &self.extensions
    }

    /// All bundled witnesses, in container order.
    pub fn bundled_witnesses(&self) -> (r: &Vec<BundledWitness>)
        ensures
            r == self.bundles,
    {
        &self.bundles
    }

    /// Relabels the container as a contract consignment by clearing the
    /// transfer flag; a pure relabeling that touches no data.
    pub fn into_contract(self) -> (r: Consignment)
        ensures
            r == (Consignment { transfer: false, ..self }),
    {
        Consignment { transfer: false, ..self }
    }

    /// The sole post-construction transform: reveals the terminal seals.
    /// For each bundle named in `terminals` whose secret seal has a matching
    /// entry in `reveals` (one whose revealed seal really conceals to that
    /// secret), every assignment carrying that concealed seal is rewritten
    /// to the revealed form; everything else is untouched. Because identity
    /// commits to concealed projections only, the consignment identifier is
    /// unchanged.
    pub fn reveal_terminal_seals(self, reveals: &Vec<(SecretSeal, GraphSeal)>) -> (r:
        Consignment)
        ensures
            r.version == self.version,
            r.transfer == self.transfer,
            r.terminals@ == self.terminals@,
            r.genesis == self.genesis,
            r.extensions@ == self.extensions@,
            r.schema == self.schema,
            r.ifaces@ == self.ifaces@,
            r.supplements@ == self.supplements@,
            r.types == self.types,
            r.scripts@ == self.scripts@,
            r.attachments@ == self.attachments@,
            r.signatures@ == self.signatures@,
            r.bundles@.len() == self.bundles@.len(),
            forall|i: int| 0 <= i < self.bundles@.len() ==> bw_mapped(
                #[trigger] r.bundles@[i], self.bundles@[i], self.terminals@, reveals@),
            r.commit_id_spec() == self.commit_id_spec(),
    {
        let Consignment {
            version,
            transfer,
            terminals,
            genesis,
            extensions,
            bundles,
            schema,
            ifaces,
            supplements,
            types,
            scripts,
            attachments,
            signatures,
        } = self;
        let new_bundles = process_bundled_witnesses(bundles, &terminals, reveals);
        let r = Consignment {
            version,
            transfer,
            terminals,
            genesis,
            extensions,
            bundles: new_bundles,
            schema,
            ifaces,
            supplements,
            types,
            scripts,
            attachments,
            signatures,
        };
        proof {
            lemma_reveal_preserves_identity(r, self, reveals@);
        }
        r
    }
}

// ----------------------------------------------------- revelation of seals

/// First value stored under `key`, if any.
pub open spec fn lookup_id<V>(s: Seq<(Id, V)>, key: Id) -> Option<V>
    decreases s.len(),
{
    if s.len() == 0 {
        None
    } else if s[0].0 == key {
        Some(s[0].1)
    } else {
        lookup_id(s.drop_first(), key)
    }
}

/// The revelation, if any, that applies to a bundle: the bundle must be a
/// terminal, its secret seal must have a reveal entry, and that entry's
/// revealed seal must actually conceal to the secret.
pub open spec fn bundle_reveal(
    terminals: Seq<(Id, Id)>,
    reveals: Seq<(Id, GraphSeal)>,
    b: Bundle,
) -> Option<(Id, GraphSeal)> {
    match lookup_id(terminals, bundle_id_spec(b)) {
        Some(secret) => match lookup_id(reveals, secret) {
            Some(g) => if seal_secret_spec(g) == secret {
                Some((secret, g))
            } else {
                None
            },
            None => None,
        },
        None => None,
    }
}

/// How one assignment changes under revelation of `secret` to `g`: its seal
/// is revealed exactly if it was concealed to `secret`; nothing else moves.
pub open spec fn assignment_revealed(a2: Assignment, a1: Assignment, secret: Id, g: GraphSeal)
    -> bool {
    a2 == if a1.seal == Seal::Concealed(secret) {
        Assignment { ty: a1.ty, seal: Seal::Revealed(g), state: a1.state }
    } else {
        a1
    }
}

/// How one transition changes: assignments pointwise, everything else kept.
pub open spec fn transition_revealed(t2: Transition, t1: Transition, secret: Id, g: GraphSeal)
    -> bool {
    &&& t2.contract_id == t1.contract_id
    &&& t2.transition_type == t1.transition_type
    &&& t2.inputs@ == t1.inputs@
    &&& t2.payload@ == t1.payload@
    &&& t2.assignments@.len() == t1.assignments@.len()
    &&& forall|i: int| 0 <= i < t1.assignments@.len() ==> assignment_revealed(
        #[trigger] t2.assignments@[i], t1.assignments@[i], secret, g)
}

/// How one bundle changes under revelation of `secret` to `g`.
pub open spec fn bundle_revealed_with(b2: Bundle, b1: Bundle, secret: Id, g: GraphSeal)
    -> bool {
    &&& b2.transitions@.len() == b1.transitions@.len()
    &&& forall|i: int| 0 <= i < b1.transitions@.len() ==> transition_revealed(
        #[trigger] b2.transitions@[i], b1.transitions@[i], secret, g)
}

/// How one bundle changes under the whole transform: by its own applicable
/// revelation if there is one, else not at all.
pub open spec fn bundle_mapped(
    b2: Bundle,
    b1: Bundle,
    terminals: Seq<(Id, Id)>,
    reveals: Seq<(Id, GraphSeal)>,
) -> bool {
    match bundle_reveal(terminals, reveals, b1) {
        Some(sg) => bundle_revealed_with(b2, b1, sg.0, sg.1),
        None => b2 == b1,
    }
}

/// How one bundled witness changes: bundles pointwise, witness kept.
pub open spec fn bw_mapped(
    w2: BundledWitness,
    w1: BundledWitness,
    terminals: Seq<(Id, Id)>,
    reveals: Seq<(Id, GraphSeal)>,
) -> bool {
    &&& w2.pub_witness == w1.pub_witness
    &&& w2.bundles@.len() == w1.bundles@.len()
    &&& forall|i: int| 0 <= i < w1.bundles@.len() ==> bundle_mapped(
        #[trigger] w2.bundles@[i], w1.bundles@[i], terminals, reveals)
}

/// Looks a bundle id up among the terminals.
fn lookup_terminal(v: &Vec<(Id, Id)>, key: &Id) -> (r: Option<Id>)
    ensures
        r == lookup_id(v@, *key),
{
    proof {
        assert(v@.subrange(0, v@.len() as int) =~= v@);
    }
    let mut i: usize = 0;
    while i < v.len()
        invariant
            i <= v@.len(),
            lookup_id(v@, *key) == lookup_id(v@.subrange(i as int, v@.len() as int), *key),
        decreases v.len() - i,
    {
        if v[i].0 == *key {
            proof {
                assert(v@.subrange(i as int, v@.len() as int)[0] == v@[i as int]);
            }
            return Some(v[i].1);
        }
        proof {
            assert(v@.subrange(i as int, v@.len() as int).drop_first()
                =~= v@.subrange(i as int + 1, v@.len() as int));
        }
        i += 1;
    }
    proof {
        assert(v@.subrange(v@.len() as int, v@.len() as int) =~= Seq::<(Id, Id)>::empty());
    }
    None
}

/// Looks a secret seal up among the reveal entries.
fn lookup_reveal(v: &Vec<(Id, GraphSeal)>, key: &Id) -> (r: Option<GraphSeal>)
    ensures
        r == lookup_id(v@, *key),
{
    proof {
        assert(v@.subrange(0, v@.len() as int) =~= v@);
    }
    let mut i: usize = 0;
    while i < v.len()
        invariant
            i <= v@.len(),
            lookup_id(v@, *key) == lookup_id(v@.subrange(i as int, v@.len() as int), *key),
        decreases v.len() - i,
    {
        if v[i].0 == *key {
            proof {
                assert(v@.subrange(i as int, v@.len() as int)[0] == v@[i as int]);
            }
            return Some(v[i].1);
        }
        proof {
            assert(v@.subrange(i as int, v@.len() as int).drop_first()
                =~= v@.subrange(i as int + 1, v@.len() as int));
        }
        i += 1;
    }
    proof {
        assert(v@.subrange(v@.len() as int, v@.len() as int)
            =~= Seq::<(Id, GraphSeal)>::empty());
    }
    None
}

fn reveal_assignment(a: Assignment, secret: &Id, g: &GraphSeal) -> (r: Assignment)
    ensures
        assignment_revealed(r, a, *secret, *g),
{
    match a.seal {
        Seal::Concealed(s) => {
            if s == *secret {
                Assignment { ty: a.ty, seal: Seal::Revealed(*g), state: a.state }
            } else {
                a
            }
        },
        Seal::Revealed(_) => a,
    }
}

fn reveal_assignments(v: Vec<Assignment>, secret: &Id, g: &GraphSeal) -> (r: Vec<Assignment>)
    ensures
        r@.len() == v@.len(),
        forall|i: int| 0 <= i < v@.len() ==> assignment_revealed(#[trigger] r@[i], v@[i],
            *secret, *g),
{
    let ghost orig = v@;
    let mut rest = v;
    let mut out: Vec<Assignment> = Vec::new();
    while rest.len() > 0
        invariant
            out@.len() + rest@.len() == orig.len(),
            rest@ == orig.subrange(out@.len() as int, orig.len() as int),
            forall|i: int| 0 <= i < out@.len() ==> assignment_revealed(#[trigger] out@[i],
                orig[i], *secret, *g),
        decreases rest.len(),
    {
        let a = rest.remove(0);
        proof {
            assert(a == orig[out@.len() as int]);
            assert(rest@ =~= orig.subrange(out@.len() as int + 1, orig.len() as int));
        }
        let b = reveal_assignment(a, secret, g);
        out.push(b);
    }
    out
}

fn reveal_transition(t: Transition, secret: &Id, g: &GraphSeal) -> (r: Transition)
    ensures
        transition_revealed(r, t, *secret, *g),
{
    let Transition { contract_id, transition_type, inputs, assignments, payload } = t;
    let new_assignments = reveal_assignments(assignments, secret, g);
    Transition {
        contract_id,
        transition_type,
        inputs,
        assignments: new_assignments,
        payload,
    }
}

fn reveal_bundle(b: Bundle, secret: &Id, g: &GraphSeal) -> (r: Bundle)
    ensures
        bundle_revealed_with(r, b, *secret, *g),
{
    let ghost orig = b.transitions@;
    let Bundle { transitions } = b;
    let mut rest = transitions;
    let mut out: Vec<Transition> = Vec::new();
    while rest.len() > 0
        invariant
            out@.len() + rest@.len() == orig.len(),
            rest@ == orig.subrange(out@.len() as int, orig.len() as int),
            forall|i: int| 0 <= i < out@.len() ==> transition_revealed(#[trigger] out@[i],
                orig[i], *secret, *g),
        decreases rest.len(),
    {
        let t = rest.remove(0);
        proof {
            assert(t == orig[out@.len() as int]);
            assert(rest@ =~= orig.subrange(out@.len() as int + 1, orig.len() as int));
        }
        let t2 = reveal_transition(t, secret, g);
        out.push(t2);
    }
    Bundle { transitions: out }
}

fn process_bundle(b: Bundle, terminals: &Vec<(Id, Id)>, reveals: &Vec<(Id, GraphSeal)>) -> (r:
    Bundle)
    ensures
        bundle_mapped(r, b, terminals@, reveals@),
{
    let bid = crate::commit::bundle_id_of(&b);
    match lookup_terminal(terminals, &bid) {
        Some(secret) => match lookup_reveal(reveals, &secret) {
            Some(g) => {
                let sg = crate::commit::seal_secret(&g);
                if sg == secret {
                    reveal_bundle(b, &secret, &g)
                } else {
                    b
                }
            },
            None => b,
        },
        None => b,
    }
}

fn process_bundles(v: Vec<Bundle>, terminals: &Vec<(Id, Id)>, reveals: &Vec<(Id, GraphSeal)>)
    -> (r: Vec<Bundle>)
    ensures
        r@.len() == v@.len(),
        forall|i: int| 0 <= i < v@.len() ==> bundle_mapped(#[trigger] r@[i], v@[i],
            terminals@, reveals@),
{
    let ghost orig = v@;
    let mut rest = v;
    let mut out: Vec<Bundle> = Vec::new();
    while rest.len() > 0
        invariant
            out@.len() + rest@.len() == orig.len(),
            rest@ == orig.subrange(out@.len() as int, orig.len() as int),
            forall|i: int| 0 <= i < out@.len() ==> bundle_mapped(#[trigger] out@[i], orig[i],
                terminals@, reveals@),
        decreases rest.len(),
    {
        let b = rest.remove(0);
        proof {
            assert(b == orig[out@.len() as int]);
            assert(rest@ =~= orig.subrange(out@.len() as int + 1, orig.len() as int));
        }
        let b2 = process_bundle(b, terminals, reveals);
        out.push(b2);
    }
    out
}

fn process_bundled_witnesses(
    v: Vec<BundledWitness>,
    terminals: &Vec<(Id, Id)>,
    reveals: &Vec<(Id, GraphSeal)>,
) -> (r: Vec<BundledWitness>)
    ensures
        r@.len() == v@.len(),
        forall|i: int| 0 <= i < v@.len() ==> bw_mapped(#[trigger] r@[i], v@[i], terminals@,
            reveals@),
{
    let ghost orig = v@;
    let mut rest = v;
    let mut out: Vec<BundledWitness> = Vec::new();
    while rest.len() > 0
        invariant
            out@.len() + rest@.len() == orig.len(),
            rest@ == orig.subrange(out@.len() as int, orig.len() as int),
            forall|i: int| 0 <= i < out@.len() ==> bw_mapped(#[trigger] out@[i], orig[i],
                terminals@, reveals@),
        decreases rest.len(),
    {
        let bw = rest.remove(0);
        proof {
            assert(bw == orig[out@.len() as int]);
            assert(rest@ =~= orig.subrange(out@.len() as int + 1, orig.len() as int));
        }
        let BundledWitness { pub_witness, bundles } = bw;
        let new_inner = process_bundles(bundles, terminals, reveals);
        out.push(BundledWitness { pub_witness, bundles: new_inner });
    }
    out
}


// ------------------------------------------------------- content congruence

/// Two assignments with the same content (fields equal up to views).
pub open spec fn same_assignment(a: Assignment, b: Assignment) -> bool {
    a.ty == b.ty && a.seal == b.seal && a.state@ == b.state@
}

/// Two transitions with the same content.
pub open spec fn same_transition(a: Transition, b: Transition) -> bool {
    &&& a.contract_id == b.contract_id
    &&& a.transition_type == b.transition_type
    &&& a.inputs@ == b.inputs@
    &&& a.payload@ == b.payload@
    &&& a.assignments@.len() == b.assignments@.len()
    &&& forall|i: int| 0 <= i < a.assignments@.len() ==> same_assignment(
        #[trigger] a.assignments@[i], b.assignments@[i])
}

/// Two bundles with the same content.
pub open spec fn same_bundle(a: Bundle, b: Bundle) -> bool {
    &&& a.transitions@.len() == b.transitions@.len()
    &&& forall|i: int| 0 <= i < a.transitions@.len() ==> same_transition(
        #[trigger] a.transitions@[i], b.transitions@[i])
}

/// Two bundled witnesses with the same content.
pub open spec fn same_bw(a: BundledWitness, b: BundledWitness) -> bool {
    &&& a.pub_witness == b.pub_witness
    &&& a.bundles@.len() == b.bundles@.len()
    &&& forall|i: int| 0 <= i < a.bundles@.len() ==> same_bundle(#[trigger] a.bundles@[i],
        b.bundles@[i])
}

/// Two interface pairs with the same content.
pub open spec fn same_iface_pair(a: IfacePair, b: IfacePair) -> bool {
    a.iface.name@ == b.iface.name@ && a.iface.payload@ == b.iface.payload@
        && a.iimpl.iface_id == b.iimpl.iface_id && a.iimpl.payload@ == b.iimpl.payload@
}

/// Two keyed blobs with the same content.
pub open spec fn same_blob_entry(a: (Id, Vec<u8>), b: (Id, Vec<u8>)) -> bool {
    a.0 == b.0 && a.1@ == b.1@
}

/// Two consignments carrying the same content, field by field up to views:
/// equal as mathematical objects even where the heap values differ.
pub open spec fn same_content(a: Consignment, b: Consignment) -> bool {
    &&& a.version == b.version
    &&& a.transfer == b.transfer
    &&& a.terminals@ == b.terminals@
    &&& a.genesis@ == b.genesis@
    &&& a.extensions@.len() == b.extensions@.len()
    &&& forall|i: int| 0 <= i < a.extensions@.len() ==> (#[trigger] a.extensions@[i]).payload@
        == b.extensions@[i].payload@
    &&& a.bundles@.len() == b.bundles@.len()
    &&& forall|i: int| 0 <= i < a.bundles@.len() ==> same_bw(#[trigger] a.bundles@[i],
        b.bundles@[i])
    &&& a.schema@ == b.schema@
    &&& a.ifaces@.len() == b.ifaces@.len()
    &&& forall|i: int| 0 <= i < a.ifaces@.len() ==> same_iface_pair(#[trigger] a.ifaces@[i],
        b.ifaces@[i])
    &&& a.supplements@.len() == b.supplements@.len()
    &&& forall|i: int| 0 <= i < a.supplements@.len() ==> (#[trigger] a.supplements@[
        i]).payload@ == b.supplements@[i].payload@
    &&& a.types.payload@ == b.types.payload@
    &&& a.scripts@.len() == b.scripts@.len()
    &&& forall|i: int| 0 <= i < a.scripts@.len() ==> (#[trigger] a.scripts@[i]).payload@
        == b.scripts@[i].payload@
    &&& a.attachments@.len() == b.attachments@.len()
    &&& forall|i: int| 0 <= i < a.attachments@.len() ==> same_blob_entry(
        #[trigger] a.attachments@[i], b.attachments@[i])
    &&& a.signatures@.len() == b.signatures@.len()
    &&& forall|i: int| 0 <= i < a.signatures@.len() ==> same_blob_entry(
        #[trigger] a.signatures@[i], b.signatures@[i])
}

proof fn lemma_enc_state_congr(a: PersistedState, b: PersistedState)
    requires
        a@ == b@,
    ensures
        crate::model::enc_state(a) == crate::model::enc_state(b),
{
    match a {
        PersistedState::Void => {
            assert(b@ == crate::model::PersistedStateV::Void);
        },
        PersistedState::Amount(x, y, z) => {},
        PersistedState::Data(d, salt) => {
            match b {
                PersistedState::Data(d2, salt2) => {
                    assert(d@ == d2@ && salt == salt2);
                },
                _ => {
                    assert(false);
                },
            }
        },
        PersistedState::Attachment(id, salt) => {},
    }
}

proof fn lemma_assignment_concealed_congr(a: Assignment, b: Assignment)
    requires
        same_assignment(a, b),
    ensures
        enc_assignment_concealed(a) == enc_assignment_concealed(b),
{
    lemma_enc_state_congr(a.state, b.state);
}

proof fn lemma_transition_concealed_congr(a: Transition, b: Transition)
    requires
        same_transition(a, b),
    ensures
        enc_transition_concealed(a) == enc_transition_concealed(b),
{
    let fa = |x: Assignment| enc_assignment_concealed(x);
    assert forall|i: int| 0 <= i < a.assignments@.len() implies fa(a.assignments@[i]) == fa(
        b.assignments@[i]) by {
        lemma_assignment_concealed_congr(a.assignments@[i], b.assignments@[i]);
    }
    lemma_enc_each_pointwise(a.assignments@, b.assignments@, fa);
}

proof fn lemma_bundle_concealed_congr(a: Bundle, b: Bundle)
    requires
        same_bundle(a, b),
    ensures
        enc_bundle_concealed(a) == enc_bundle_concealed(b),
{
    let ft = |t: Transition| enc_transition_concealed(t);
    assert forall|i: int| 0 <= i < a.transitions@.len() implies ft(a.transitions@[i]) == ft(
        b.transitions@[i]) by {
        lemma_transition_concealed_congr(a.transitions@[i], b.transitions@[i]);
    }
    lemma_enc_each_pointwise(a.transitions@, b.transitions@, ft);
}

proof fn lemma_bw_concealed_congr(a: BundledWitness, b: BundledWitness)
    requires
        same_bw(a, b),
    ensures
        enc_bundled_witness_concealed(a) == enc_bundled_witness_concealed(b),
{
    let fb = |x: Bundle| enc_bundle_concealed(x);
    assert forall|i: int| 0 <= i < a.bundles@.len() implies fb(a.bundles@[i]) == fb(
        b.bundles@[i]) by {
        lemma_bundle_concealed_congr(a.bundles@[i], b.bundles@[i]);
    }
    lemma_enc_each_pointwise(a.bundles@, b.bundles@, fb);
}

/// The consignment identifier, the contract and schema identifiers, and
/// structural well-formedness are functions of a consignment's content
/// alone: two containers with the same content agree on all of them.
proof fn lemma_same_content_sets(a: Consignment, b: Consignment)
    requires
        same_content(a, b),
    ensures
        a.impl_ids() == b.impl_ids(),
        a.bundle_discloses() == b.bundle_discloses(),
        a.ext_discloses() == b.ext_discloses(),
        a.attach_ids() == b.attach_ids(),
        a.suppl_ids() == b.suppl_ids(),
        a.lib_ids() == b.lib_ids(),
{
    assert(a.impl_ids() =~= b.impl_ids()) by {
        assert forall|i: int| 0 <= i < a.ifaces@.len() implies a.impl_ids()[i]
            == b.impl_ids()[i] by {
            assert(crate::model::enc_iface_impl(a.ifaces@[i].iimpl)
                == crate::model::enc_iface_impl(b.ifaces@[i].iimpl));
        }
    }
    assert(a.bundle_discloses() =~= b.bundle_discloses()) by {
        assert forall|i: int| 0 <= i < a.bundles@.len() implies a.bundle_discloses()[i]
            == b.bundle_discloses()[i] by {
            lemma_bw_concealed_congr(a.bundles@[i], b.bundles@[i]);
        }
    }
    assert(a.ext_discloses() =~= b.ext_discloses()) by {
        assert forall|i: int| 0 <= i < a.extensions@.len() implies a.ext_discloses()[i]
            == b.ext_discloses()[i] by {
            assert(crate::model::enc_extension(a.extensions@[i])
                == crate::model::enc_extension(b.extensions@[i]));
        }
    }
    assert(a.attach_ids() =~= b.attach_ids());
    assert(a.suppl_ids() =~= b.suppl_ids()) by {
        assert forall|i: int| 0 <= i < a.supplements@.len() implies a.suppl_ids()[i]
            == b.suppl_ids()[i] by {
            assert(crate::model::enc_supplement(a.supplements@[i])
                == crate::model::enc_supplement(b.supplements@[i]));
        }
    }
    assert(a.lib_ids() =~= b.lib_ids()) by {
        assert forall|i: int| 0 <= i < a.scripts@.len() implies a.lib_ids()[i]
            == b.lib_ids()[i] by {
            assert(crate::model::enc_script_lib(a.scripts@[i])
                == crate::model::enc_script_lib(b.scripts@[i]));
        }
    }
}

proof fn lemma_same_content_wf(a: Consignment, b: Consignment)
    requires
        same_content(a, b),
    ensures
        a.wf() <==> b.wf(),
{
    if keys_sorted(a.attachments@) {
        assert forall|i: int, j: int| 0 <= i < j < b.attachments@.len() implies (
            #[trigger] b.attachments@[i]).0.lt_spec((#[trigger] b.attachments@[j]).0) by {
            assert(a.attachments@[i].0.lt_spec(a.attachments@[j].0));
            assert(b.attachments@[i].0 == a.attachments@[i].0);
            assert(b.attachments@[j].0 == a.attachments@[j].0);
        }
    }
    if keys_sorted(b.attachments@) {
        assert forall|i: int, j: int| 0 <= i < j < a.attachments@.len() implies (
            #[trigger] a.attachments@[i]).0.lt_spec((#[trigger] a.attachments@[j]).0) by {
            assert(b.attachments@[i].0.lt_spec(b.attachments@[j].0));
            assert(a.attachments@[i].0 == b.attachments@[i].0);
            assert(a.attachments@[j].0 == b.attachments@[j].0);
        }
    }
    if keys_sorted(a.signatures@) {
        assert forall|i: int, j: int| 0 <= i < j < b.signatures@.len() implies (
            #[trigger] b.signatures@[i]).0.lt_spec((#[trigger] b.signatures@[j]).0) by {
            assert(a.signatures@[i].0.lt_spec(a.signatures@[j].0));
            assert(b.signatures@[i].0 == a.signatures@[i].0);
            assert(b.signatures@[j].0 == a.signatures@[j].0);
        }
    }
    if keys_sorted(b.signatures@) {
        assert forall|i: int, j: int| 0 <= i < j < a.signatures@.len() implies (
            #[trigger] a.signatures@[i]).0.lt_spec((#[trigger] a.signatures@[j]).0) by {
            assert(b.signatures@[i].0.lt_spec(b.signatures@[j].0));
            assert(a.signatures@[i].0 == b.signatures@[i].0);
            assert(a.signatures@[j].0 == b.signatures@[j].0);
        }
    }
}

/// The consignment identifier, the contract and schema identifiers, and
/// structural well-formedness are functions of a consignment's content
/// alone: two containers with the same content agree on all of them.
pub proof fn lemma_same_content_identity(a: Consignment, b: Consignment)
    requires
        same_content(a, b),
    ensures
        a.commit_id_spec() == b.commit_id_spec(),
        contract_id_spec(a.genesis) == contract_id_spec(b.genesis),
        schema_id_spec(a.schema) == schema_id_spec(b.schema),
        a.wf() <==> b.wf(),
{
    lemma_same_content_sets(a, b);
    lemma_same_content_wf(a, b);
    assert(a.enc_signatures() == b.enc_signatures()) by {
        let f = |e: (Id, Vec<u8>)| enc_id(e.0) + enc_bytes(e.1@);
        assert forall|i: int| 0 <= i < a.signatures@.len() implies f(a.signatures@[i]) == f(
            b.signatures@[i]) by {}
        lemma_enc_each_pointwise(a.signatures@, b.signatures@, f);
    }
    assert(a.commit_stream() == b.commit_stream());
}

// --------------------------------------------------- identity stability law

proof fn lemma_assignment_conceal_preserved(a2: Assignment, a1: Assignment, secret: Id,
    g: GraphSeal)
    requires
        assignment_revealed(a2, a1, secret, g),
        seal_secret_spec(g) == secret,
    ensures
        enc_assignment_concealed(a2) == enc_assignment_concealed(a1),
{
    if a1.seal == Seal::Concealed(secret) {
        assert(conceal_seal_spec(a2.seal) == secret);
        assert(conceal_seal_spec(a1.seal) == secret);
    }
}

proof fn lemma_transition_conceal_preserved(t2: Transition, t1: Transition, secret: Id,
    g: GraphSeal)
    requires
        transition_revealed(t2, t1, secret, g),
        seal_secret_spec(g) == secret,
    ensures
        enc_transition_concealed(t2) == enc_transition_concealed(t1),
{
    let fa = |a: Assignment| enc_assignment_concealed(a);
    assert forall|i: int| 0 <= i < t1.assignments@.len() implies fa(t2.assignments@[i]) == fa(
        t1.assignments@[i]) by {
        lemma_assignment_conceal_preserved(t2.assignments@[i], t1.assignments@[i], secret, g);
    }
    lemma_enc_each_pointwise(t2.assignments@, t1.assignments@, fa);
}

proof fn lemma_bundle_conceal_preserved(b2: Bundle, b1: Bundle, terminals: Seq<(Id, Id)>,
    reveals: Seq<(Id, GraphSeal)>)
    requires
        bundle_mapped(b2, b1, terminals, reveals),
    ensures
        enc_bundle_concealed(b2) == enc_bundle_concealed(b1),
{
    match bundle_reveal(terminals, reveals, b1) {
        Some(sg) => {
            let ft = |t: Transition| enc_transition_concealed(t);
            assert forall|i: int| 0 <= i < b1.transitions@.len() implies ft(
                b2.transitions@[i]) == ft(b1.transitions@[i]) by {
                lemma_transition_conceal_preserved(b2.transitions@[i], b1.transitions@[i],
                    sg.0, sg.1);
            }
            lemma_enc_each_pointwise(b2.transitions@, b1.transitions@, ft);
        },
        None => {},
    }
}

proof fn lemma_bw_conceal_preserved(w2: BundledWitness, w1: BundledWitness,
    terminals: Seq<(Id, Id)>, reveals: Seq<(Id, GraphSeal)>)
    requires
        bw_mapped(w2, w1, terminals, reveals),
    ensures
        enc_bundled_witness_concealed(w2) == enc_bundled_witness_concealed(w1),
{
    let fb = |b: Bundle| enc_bundle_concealed(b);
    assert forall|i: int| 0 <= i < w1.bundles@.len() implies fb(w2.bundles@[i]) == fb(
        w1.bundles@[i]) by {
        lemma_bundle_conceal_preserved(w2.bundles@[i], w1.bundles@[i], terminals, reveals);
    }
    lemma_enc_each_pointwise(w2.bundles@, w1.bundles@, fb);
}

/// Identity stability: a consignment whose bundles differ from another's
/// only by revelation of terminal seals (each revealed seal concealing back
/// to the secret it replaced), all other fields equal, has the same
/// consignment identifier: identity commits to concealed projections only,
/// so revealing already-shared data never changes it.
pub proof fn lemma_reveal_preserves_identity(c2: Consignment, c1: Consignment,
    reveals: Seq<(Id, GraphSeal)>)
    requires
        c2.version == c1.version,
        c2.transfer == c1.transfer,
        c2.terminals@ == c1.terminals@,
        c2.genesis == c1.genesis,
        c2.extensions@ == c1.extensions@,
        c2.schema == c1.schema,
        c2.ifaces@ == c1.ifaces@,
        c2.supplements@ == c1.supplements@,
        c2.types == c1.types,
        c2.scripts@ == c1.scripts@,
        c2.attachments@ == c1.attachments@,
        c2.signatures@ == c1.signatures@,
        c2.bundles@.len() == c1.bundles@.len(),
        forall|i: int| 0 <= i < c1.bundles@.len() ==> bw_mapped(#[trigger] c2.bundles@[i],
            c1.bundles@[i], c1.terminals@, reveals),
    ensures
        c2.commit_id_spec() == c1.commit_id_spec(),
{
    let f = |bw: BundledWitness| witness_disclose_spec(bw);
    assert forall|i: int| 0 <= i < c1.bundles@.len() implies f(c2.bundles@[i]) == f(
        c1.bundles@[i]) by {
        lemma_bw_conceal_preserved(c2.bundles@[i], c1.bundles@[i], c1.terminals@, reveals);
    }
    assert(c2.bundle_discloses() =~= c1.bundle_discloses());
    assert(c2.impl_ids() =~= c1.impl_ids());
    assert(c2.ext_discloses() =~= c1.ext_discloses());
    assert(c2.attach_ids() =~= c1.attach_ids());
    assert(c2.suppl_ids() =~= c1.suppl_ids());
    assert(c2.lib_ids() =~= c1.lib_ids());
    assert(c2.commit_stream() == c1.commit_stream());
}

} // verus!
