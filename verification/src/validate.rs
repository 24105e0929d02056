//! The validation envelope: schema/script validation through an injected
//! validator capability, plus the container-level consistency checks layered
//! on top of it.
//!
//! Container anomalies (a wrong transfer flag, an implementation aimed at
//! another interface, a dangling terminal) append warnings and never reject
//! by themselves: structural suspicion must be visible without making the
//! data unusable. Only the validator's own verdict decides acceptance.
//!
//! A consignment-local fallback resolver (answering for witnesses carried
//! inside the container itself) is not modelled: the public witness here is
//! reduced to its identifier, so the container holds no witness data a
//! fallback could resolve from, and the injected resolver is the only
//! source of witness orders.

use vstd::prelude::*;

use crate::ids::{Id, WitnessId};
use crate::consignment::{lookup_id, Consignment};
use crate::commit::{bundle_id_spec, iface_id_spec, impl_id_spec};
use crate::model::{Bundle, BundledWitness, IfacePair};

verus! {

/// The validator's verdict on a consignment.
#[derive(Clone, Copy, PartialEq, Eq, Structural, Debug)]
pub enum Validity {
    Valid,
    UnresolvedTransactions,
    Invalid,
}

/// A non-fatal validation warning.
#[derive(Clone, Copy, PartialEq, Eq, Structural, Debug)]
pub enum Warning {
    /// The container's transfer flag disagrees with the consignment type the
    /// caller asked to validate.
    ConsignmentTypeMismatch,
    /// An interface implementation targets a different interface than the
    /// one it is paired with.
    IfaceImplMismatch { impl_id: Id, claimed: Id, expected: Id },
    /// A terminal references a bundle id not present in the consignment.
    TerminalAbsent { bundle_id: Id },
    /// A warning reported by the validator capability, by its code.
    Other(u64),
}

/// The outcome of a validation run: the verdict, the fatal failures behind
/// it (as validator-assigned codes), and the accumulated warnings.
#[derive(Clone, PartialEq, Eq, Debug)]
pub struct Status {
    pub validity: Validity,
    pub failures: Vec<u64>,
    pub warnings: Vec<Warning>,
}

impl Status {
    /// The verdict carried by this status.
    pub fn validity(&self) -> (r: Validity)
        ensures
            r == self.validity,
    {
        self.validity
    }

    /// Appends one warning; verdict and failures are untouched.
    pub fn add_warning(&mut self, w: Warning)
        ensures
            final(self).validity == old(self).validity,
            final(self).failures@ == old(self).failures@,
            final(self).warnings@ == old(self).warnings@.push(w),
    {
        self.warnings.push(w);
    }
}

// ------------------------------------------------------------- capabilities

/// A resolver error: the witness is unknown to the resolver, or the
/// resolver could not be reached.
#[derive(Clone, Copy, PartialEq, Eq, Structural, Debug)]
pub enum ResolverError {
    Unknown,
    Connectivity,
}

/// The witness-order resolution capability: maps a public witness id to its
/// total-order position against the external timestamping layer (smaller is
/// earlier / more final). An implementation answers as a fixed function of
/// the witness id for the duration of a fold.
pub trait ResolveWitness {
    /// The order this resolver reports for each witness; `None` where
    /// resolution fails.
    spec fn ord_of(&self, witness_id: WitnessId) -> Option<u64>;

    /// Resolves one witness; fails exactly where the model has no order.
    fn resolve_pub_witness_ord(&self, witness_id: WitnessId) -> (r: Result<u64, ResolverError>)
        ensures
            match r {
                Ok(p) => self.ord_of(witness_id) == Some(p),
                Err(_) => self.ord_of(witness_id) == None::<u64>,
            },
    ;
}

/// A resolver backed by a fixed table of witness orders: the reference
/// implementation, also convenient for tests.
pub struct FixedResolver {
    pub entries: Vec<(WitnessId, u64)>,
}

impl ResolveWitness for FixedResolver {
    open spec fn ord_of(&self, witness_id: WitnessId) -> Option<u64> {
        lookup_id(self.entries@, witness_id)
    }

    fn resolve_pub_witness_ord(&self, witness_id: WitnessId) -> (r: Result<u64, ResolverError>)
    {
        proof {
            assert(self.entries@.subrange(0, self.entries@.len() as int) =~= self.entries@);
        }
        let mut i: usize = 0;
        while i < self.entries.len()
            invariant
                i <= self.entries@.len(),
                lookup_id(self.entries@, witness_id) == lookup_id(
                    self.entries@.subrange(i as int, self.entries@.len() as int), witness_id),
            decreases self.entries.len() - i,
        {
            if self.entries[i].0 == witness_id {
                proof {
                    assert(self.entries@.subrange(i as int, self.entries@.len() as int)[0]
                        == self.entries@[i as int]);
                }
                return Ok(self.entries[i].1);
            }
            proof {
                assert(self.entries@.subrange(i as int, self.entries@.len() as int)
                    .drop_first() =~= self.entries@.subrange(i as int + 1,
                    self.entries@.len() as int));
            }
            i += 1;
        }
        proof {
            assert(self.entries@.subrange(self.entries@.len() as int,
                self.entries@.len() as int) =~= Seq::<(Id, u64)>::empty());
        }
        Err(ResolverError::Unknown)
    }
}

/// What a validator decides: a verdict, failure codes, and its own warnings.
pub type Decision = (Validity, Seq<u64>, Seq<Warning>);

/// The schema/script validation capability: an opaque rule engine deciding
/// a consignment's validity. Its decision is a function of the consignment's
/// content, the witness orders the resolver reports, and the network flag,
/// which is what makes validation repeatable.
pub trait ContractValidator {
    /// The decision this validator takes on the given content, under the
    /// given view of witness orders.
    spec fn decide(
        &self,
        c: Consignment,
        orders: spec_fn(WitnessId) -> Option<u64>,
        testnet: bool,
    ) -> Decision;

    /// Runs schema/script validation.
    fn validate_contract<R: ResolveWitness>(
        &self,
        c: &Consignment,
        resolver: &R,
        testnet: bool,
    ) -> (r: Status)
        ensures
            ({
                let d = self.decide(*c, |w: WitnessId| resolver.ord_of(w), testnet);
                r.validity == d.0 && r.failures@ == d.1 && r.warnings@ == d.2
            }),
    ;
}

/// A validator that accepts everything with a clean status: the stand-in
/// for consistency hooks the rule set leaves as acknowledged future work.
pub struct AcceptAllValidator;

impl ContractValidator for AcceptAllValidator {
    open spec fn decide(
        &self,
        c: Consignment,
        orders: spec_fn(WitnessId) -> Option<u64>,
        testnet: bool,
    ) -> Decision {
        (Validity::Valid, Seq::empty(), Seq::empty())
    }

    fn validate_contract<R: ResolveWitness>(
        &self,
        c: &Consignment,
        resolver: &R,
        testnet: bool,
    ) -> (r: Status) {
        Status { validity: Validity::Valid, failures: Vec::new(), warnings: Vec::new() }
    }
}

// ----------------------------------------------------- container-level checks

/// Whether some bundle anywhere in the consignment has this id.
pub open spec fn bundle_id_present(bundles: Seq<BundledWitness>, bid: Id) -> bool {
    exists|i: int, j: int| 0 <= i < bundles.len() && 0 <= j < bundles[i].bundles@.len()
        && bundle_id_spec(#[trigger] bundles[i].bundles@[j]) == bid
}

/// The warnings raised by the interface/implementation pairing check: one
/// per pair whose implementation targets a different interface.
pub open spec fn iface_warnings(s: Seq<IfacePair>) -> Seq<Warning>
    decreases s.len(),
{
    if s.len() == 0 {
        Seq::empty()
    } else {
        (if iface_id_spec(s[0].iface) != s[0].iimpl.iface_id {
            seq![Warning::IfaceImplMismatch {
                impl_id: impl_id_spec(s[0].iimpl),
                claimed: s[0].iimpl.iface_id,
                expected: iface_id_spec(s[0].iface),
            }]
        } else {
            Seq::empty()
        }) + iface_warnings(s.drop_first())
    }
}

/// The warnings raised by the terminal referential check: one per terminal
/// whose bundle id no bundle in the consignment carries.
pub open spec fn terminal_warnings(terminals: Seq<(Id, Id)>, bundles: Seq<BundledWitness>)
    -> Seq<Warning>
    decreases terminals.len(),
{
    if terminals.len() == 0 {
        Seq::empty()
    } else {
        (if !bundle_id_present(bundles, terminals[0].0) {
            seq![Warning::TerminalAbsent { bundle_id: terminals[0].0 }]
        } else {
            Seq::empty()
        }) + terminal_warnings(terminals.drop_first(), bundles)
    }
}

/// All container-level warnings, in the order they are raised: the transfer
/// flag check, the interface pairing check, the terminal check.
pub open spec fn container_warnings(c: Consignment, expected_transfer: bool) -> Seq<Warning> {
    (if c.transfer != expected_transfer {
        seq![Warning::ConsignmentTypeMismatch]
    } else {
        Seq::empty()
    }) + iface_warnings(c.ifaces@) + terminal_warnings(c.terminals@, c.bundles@)
}

/// Checks whether any bundle in the consignment carries this id.
fn find_bundle_id(bundles: &Vec<BundledWitness>, bid: &Id) -> (r: bool)
    ensures
        r == bundle_id_present(bundles@, *bid),
{
    let mut i: usize = 0;
    while i < bundles.len()
        invariant
            i <= bundles@.len(),
            forall|a: int, b: int| 0 <= a < i && 0 <= b < bundles@[a].bundles@.len()
                ==> bundle_id_spec(#[trigger] bundles@[a].bundles@[b]) != *bid,
        decreases bundles.len() - i,
    {
        let bw = &bundles[i];
        let mut j: usize = 0;
        while j < bw.bundles.len()
            invariant
                j <= bw.bundles@.len(),
                bw == bundles@[i as int],
                i < bundles@.len(),
                forall|b: int| 0 <= b < j ==> bundle_id_spec(#[trigger] bw.bundles@[b])
                    != *bid,
            decreases bw.bundles.len() - j,
        {
            let candidate = crate::commit::bundle_id_of(&bw.bundles[j]);
            if candidate == *bid {
                proof {
                    assert(0 <= i < bundles@.len() && 0 <= j < bundles@[i as int].bundles@.len()
                        && bundle_id_spec(bundles@[i as int].bundles@[j as int]) == *bid);
                }
                return true;
            }
            j += 1;
        }
        i += 1;
    }
    proof {
        assert(!bundle_id_present(bundles@, *bid)) by {
            if bundle_id_present(bundles@, *bid) {
                let (a, b): (int, int) = choose|a: int, b: int| 0 <= a < bundles@.len()
                    && 0 <= b < bundles@[a].bundles@.len()
                    && bundle_id_spec(#[trigger] bundles@[a].bundles@[b]) == *bid;
                assert(bundle_id_spec(bundles@[a].bundles@[b]) != *bid);
            }
        }
    }
    false
}

/// Appends the interface pairing warnings to a status.
fn append_iface_warnings(status: &mut Status, ifaces: &Vec<IfacePair>)
    ensures
        final(status).validity == old(status).validity,
        final(status).failures@ == old(status).failures@,
        final(status).warnings@ == old(status).warnings@ + iface_warnings(ifaces@),
{
    proof {
        assert(ifaces@.subrange(0, ifaces@.len() as int) =~= ifaces@);
        assert(old(status).warnings@ + Seq::<Warning>::empty() =~= old(status).warnings@);
    }
    let mut i: usize = 0;
    while i < ifaces.len()
        invariant
            i <= ifaces@.len(),
            status.validity == old(status).validity,
            status.failures@ == old(status).failures@,
            old(status).warnings@ + iface_warnings(ifaces@)
                == status.warnings@ + iface_warnings(ifaces@.subrange(i as int,
                ifaces@.len() as int)),
        decreases ifaces.len() - i,
    {
        let ghost rest = ifaces@.subrange(i as int, ifaces@.len() as int);
        proof {
            assert(rest[0] == ifaces@[i as int]);
            assert(rest.drop_first() =~= ifaces@.subrange(i as int + 1, ifaces@.len() as int));
        }
        let pair = &ifaces[i];
        let expected = crate::commit::iface_id_of(&pair.iface);
        if expected != pair.iimpl.iface_id {
            let iid = crate::commit::impl_id_of(&pair.iimpl);
            status.add_warning(Warning::IfaceImplMismatch {
                impl_id: iid,
                claimed: pair.iimpl.iface_id,
                expected,
            });
            proof {
                assert(iface_warnings(rest) == seq![Warning::IfaceImplMismatch {
                    impl_id: impl_id_spec(ifaces@[i as int].iimpl),
                    claimed: ifaces@[i as int].iimpl.iface_id,
                    expected: iface_id_spec(ifaces@[i as int].iface),
                }] + iface_warnings(rest.drop_first()));
                assert(status.warnings@ + iface_warnings(rest.drop_first())
                    =~= old(status).warnings@ + iface_warnings(ifaces@));
            }
        } else {
            proof {
                assert(iface_warnings(rest) == Seq::<Warning>::empty()
                    + iface_warnings(rest.drop_first()));
                assert(Seq::<Warning>::empty() + iface_warnings(rest.drop_first())
                    =~= iface_warnings(rest.drop_first()));
            }
        }
        i += 1;
    }
    proof {
        let empty_rest = ifaces@.subrange(ifaces@.len() as int, ifaces@.len() as int);
        assert(empty_rest =~= Seq::<IfacePair>::empty());
        assert(iface_warnings(empty_rest) == Seq::<Warning>::empty());
        assert(status.warnings@ + Seq::<Warning>::empty() =~= status.warnings@);
    }
}

/// Appends the terminal referential warnings to a status.
fn append_terminal_warnings(status: &mut Status, terminals: &Vec<(Id, Id)>,
    bundles: &Vec<BundledWitness>)
    ensures
        final(status).validity == old(status).validity,
        final(status).failures@ == old(status).failures@,
        final(status).warnings@ == old(status).warnings@ + terminal_warnings(terminals@,
            bundles@),
{
    proof {
        assert(terminals@.subrange(0, terminals@.len() as int) =~= terminals@);
        assert(old(status).warnings@ + Seq::<Warning>::empty() =~= old(status).warnings@);
    }
    let mut i: usize = 0;
    while i < terminals.len()
        invariant
            i <= terminals@.len(),
            status.validity == old(status).validity,
            status.failures@ == old(status).failures@,
            old(status).warnings@ + terminal_warnings(terminals@, bundles@)
                == status.warnings@ + terminal_warnings(terminals@.subrange(i as int,
                terminals@.len() as int), bundles@),
        decreases terminals.len() - i,
    {
        let ghost rest = terminals@.subrange(i as int, terminals@.len() as int);
        proof {
            assert(rest[0] == terminals@[i as int]);
            assert(rest.drop_first() =~= terminals@.subrange(i as int + 1,
                terminals@.len() as int));
        }
        let bid = terminals[i].0;
        let present = find_bundle_id(bundles, &bid);
        if !present {
            status.add_warning(Warning::TerminalAbsent { bundle_id: bid });
            proof {
                assert(terminal_warnings(rest, bundles@) == seq![Warning::TerminalAbsent {
                    bundle_id: terminals@[i as int].0,
                }] + terminal_warnings(rest.drop_first(), bundles@));
                assert(status.warnings@ + terminal_warnings(rest.drop_first(), bundles@)
                    =~= old(status).warnings@ + terminal_warnings(terminals@, bundles@));
            }
        } else {
            proof {
                assert(terminal_warnings(rest, bundles@) == Seq::<Warning>::empty()
                    + terminal_warnings(rest.drop_first(), bundles@));
                assert(Seq::<Warning>::empty() + terminal_warnings(rest.drop_first(),
                    bundles@) =~= terminal_warnings(rest.drop_first(), bundles@));
            }
        }
        i += 1;
    }
    proof {
        let empty_rest = terminals@.subrange(terminals@.len() as int, terminals@.len() as int);
        assert(empty_rest =~= Seq::<(Id, Id)>::empty());
        assert(terminal_warnings(empty_rest, bundles@) == Seq::<Warning>::empty());
        assert(status.warnings@ + Seq::<Warning>::empty() =~= status.warnings@);
    }
}

// ------------------------------------------------------------ the envelope

/// Evidence that validation ran on a consignment and what it found. It does
/// not re-validate: a caller that changes the inner consignment must
/// validate the plain container again.
#[derive(Clone, PartialEq, Eq, Debug)]
pub struct ValidConsignment {
    validation_status: Status,
    consignment: Consignment,
}

impl ValidConsignment {
    /// The status this wrapper carries, for contracts.
    pub closed spec fn status_spec(self) -> Status {
        self.validation_status
    }

    /// The consignment this wrapper carries, for contracts.
    pub closed spec fn consignment_spec(self) -> Consignment {
        self.consignment
    }

    /// The status of the validation that produced this wrapper.
    pub fn validation_status(&self) -> (r: &Status)
        ensures
            r == self.status_spec(),
    {
        &self.validation_status
    }

    /// The consignment itself.
    pub fn consignment(&self) -> (r: &Consignment)
        ensures
            r == self.consignment_spec(),
    {
        &self.consignment
    }

    /// Unwraps the consignment, dropping the evidence.
    pub fn into_consignment(self) -> (r: Consignment)
        ensures
            r == self.consignment_spec(),
    {
        self.consignment
    }

    /// Unwraps the status, dropping the data.
    pub fn into_validation_status(self) -> (r: Status)
        ensures
            r == self.status_spec(),
    {
        self.validation_status
    }

    /// Splits the wrapper into its parts.
    pub fn split(self) -> (r: (Consignment, Status))
        ensures
            r.0 == self.consignment_spec(),
            r.1 == self.status_spec(),
    {
        (self.consignment, self.validation_status)
    }
}

impl Consignment {
    /// Validates the consignment: delegates the schema/script verdict to the
    /// validator capability, then layers the container-level checks on top,
    /// each appending a warning rather than failing. The outcome is a pure
    /// function of the container's content, the validator's decision under
    /// the resolver's view of witness orders, and the expected consignment
    /// type: validating the same data twice gives the same verdict and the
    /// same warnings. On a verdict other than `Valid` the container is
    /// returned alongside the status, never discarded.
    pub fn validate<V: ContractValidator, R: ResolveWitness>(
        self,
        validator: &V,
        resolver: &R,
        testnet: bool,
        expected_transfer: bool,
    ) -> (r: Result<ValidConsignment, (Status, Consignment)>)
        ensures
            ({
                let d = validator.decide(self, |w: WitnessId| resolver.ord_of(w), testnet);
                match r {
                    Ok(vc) => d.0 == Validity::Valid && vc.consignment_spec() == self
                        && vc.status_spec().validity == Validity::Valid
                        && vc.status_spec().failures@ == d.1
                        && vc.status_spec().warnings@ == d.2 + container_warnings(self,
                        expected_transfer),
                    Err((st, c)) => d.0 != Validity::Valid && c == self && st.validity == d.0
                        && st.failures@ == d.1
                        && st.warnings@ == d.2 + container_warnings(self, expected_transfer),
                }
            }),
    {
        let mut status = validator.validate_contract(&self, resolver, testnet);
        let validity = status.validity();

        if self.transfer != expected_transfer {
            status.add_warning(Warning::ConsignmentTypeMismatch);
        }
        append_iface_warnings(&mut status, &self.ifaces);
        append_terminal_warnings(&mut status, &self.terminals, &self.bundles);
        proof {
            let d = validator.decide(self, |w: WitnessId| resolver.ord_of(w), testnet);
            if self.transfer != expected_transfer {
                assert(status.warnings@ =~= d.2 + container_warnings(self, expected_transfer));
            } else {
                assert(d.2 + Seq::<Warning>::empty() =~= d.2);
                assert(status.warnings@ =~= d.2 + container_warnings(self, expected_transfer));
            }
        }

        if !matches!(validity, Validity::Valid) {
            Err((status, self))
        } else {
            Ok(ValidConsignment { validation_status: status, consignment: self })
        }
    }
}

/// Terminal referential integrity law: a terminal whose bundle id no bundle
/// carries raises exactly its warning inside the container warnings, and the
/// container warnings never influence the verdict, which is the validator's
/// decision alone. A consignment with a dangling terminal therefore stays
/// usable whenever the validator accepts it.
pub proof fn lemma_dangling_terminal_warns(terminals: Seq<(Id, Id)>,
    bundles: Seq<BundledWitness>, k: int)
    requires
        0 <= k < terminals.len(),
        !bundle_id_present(bundles, terminals[k].0),
    ensures
        terminal_warnings(terminals, bundles).contains(Warning::TerminalAbsent {
            bundle_id: terminals[k].0,
        }),
    decreases terminals.len(),
{
    let w = Warning::TerminalAbsent { bundle_id: terminals[k].0 };
    if k == 0 {
        let head = seq![w];
        assert(terminal_warnings(terminals, bundles) == head + terminal_warnings(
            terminals.drop_first(), bundles));
        assert((head + terminal_warnings(terminals.drop_first(), bundles))[0] == w);
    } else {
        lemma_dangling_terminal_warns(terminals.drop_first(), bundles, k - 1);
        let tailw = terminal_warnings(terminals.drop_first(), bundles);
        let j = choose|j: int| 0 <= j < tailw.len() && tailw[j] == w;
        if !bundle_id_present(bundles, terminals[0].0) {
            let head = seq![Warning::TerminalAbsent { bundle_id: terminals[0].0 }];
            assert(terminal_warnings(terminals, bundles) == head + tailw);
            assert((head + tailw)[1 + j] == w);
        } else {
            assert(terminal_warnings(terminals, bundles) == Seq::<Warning>::empty() + tailw);
            assert((Seq::<Warning>::empty() + tailw)[j] == w);
        }
    }
}

/// The container checks of a minimal container: with no interface pairs
/// and no terminals, validation can raise at most the transfer-flag
/// warning — none when the flag matches the expected consignment type,
/// exactly that one warning when it does not. Together with the exact
/// contract of `validate`, a genesis-only container accepted by a
/// clean-status validator therefore validates as Valid with an empty
/// warning set, and the same data with the flag flipped validates as Valid
/// with exactly the type-mismatch warning.
pub proof fn lemma_container_warnings_minimal(c: Consignment, expected_transfer: bool)
    requires
        c.ifaces@.len() == 0,
        c.terminals@.len() == 0,
    ensures
        c.transfer == expected_transfer ==> container_warnings(c, expected_transfer)
            == Seq::<Warning>::empty(),
        c.transfer != expected_transfer ==> container_warnings(c, expected_transfer)
            == seq![Warning::ConsignmentTypeMismatch],
{
    assert(iface_warnings(c.ifaces@) == Seq::<Warning>::empty());
    assert(terminal_warnings(c.terminals@, c.bundles@) == Seq::<Warning>::empty());
    if c.transfer == expected_transfer {
        assert(container_warnings(c, expected_transfer) =~= Seq::<Warning>::empty());
    } else {
        assert(container_warnings(c, expected_transfer)
            =~= seq![Warning::ConsignmentTypeMismatch]);
    }
}

} // verus!
