use rgbstd::consignment::Consignment;
use rgbstd::ids::Id;
use rgbstd::model::{Assignment, Bundle, BundledWitness, Extension, Genesis, Opout,
    PersistedState, PubWitness, Schema, Seal, Transition, TypeSystem};
use rgbstd::commit::{contract_id_of, extension_id_of, transition_id_of};
use rgbstd::state::{MemProvider, State, StateError, StateInconsistency, StateReadProvider,
    StateWriteProvider, WitnessOrd};
use rgbstd::validate::FixedResolver;

fn id(n: u64) -> Id {
    Id { w0: n, w1: 0, w2: n ^ 3, w3: 2 }
}

fn genesis() -> Genesis {
    Genesis { schema_id: id(1), testnet: true, payload: vec![1, 2, 3] }
}

fn schema() -> Schema {
    Schema { payload: vec![9, 9] }
}

fn transition(n: u64, inputs: Vec<Opout>) -> Transition {
    Transition {
        contract_id: id(50),
        transition_type: 1,
        inputs,
        assignments: vec![Assignment {
            ty: 1,
            seal: Seal::Concealed(id(n + 1000)),
            state: PersistedState::Amount(n, id(60), id(61)),
        }],
        payload: vec![n as u8],
    }
}

fn consignment_with(bundles: Vec<BundledWitness>, extensions: Vec<Extension>) -> Consignment {
    Consignment {
        version: 2,
        transfer: false,
        terminals: Vec::new(),
        genesis: genesis(),
        extensions,
        bundles,
        schema: schema(),
        ifaces: Vec::new(),
        supplements: Vec::new(),
        types: TypeSystem { payload: vec![4] },
        scripts: Vec::new(),
        attachments: Vec::new(),
        signatures: Vec::new(),
    }
}

fn registered_state() -> (State<MemProvider>, Id) {
    let mut provider = MemProvider::new();
    provider.register_contract(&schema(), &genesis()).unwrap();
    let cid = contract_id_of(&genesis());
    (State::new(provider), cid)
}

#[test]
fn unknown_contract_guard() {
    let mut state = State::new(MemProvider::new());
    let bundle = Bundle { transitions: vec![transition(1, Vec::new())] };
    let resolver = FixedResolver { entries: vec![(id(30), 5)] };
    let r = state.update_from_bundle(id(99), &bundle, id(30), &resolver);
    assert_eq!(r, Err(StateError::Inconsistency(StateInconsistency::UnknownContract(id(
        99)))));
    // no provider mutation: the contract is still unknown
    assert!(state.contract_state(id(99)).is_err());
}

#[test]
fn idempotent_fold() {
    let (mut state, cid) = registered_state();
    let bundle = Bundle { transitions: vec![transition(1, Vec::new()), transition(2,
        Vec::new())] };
    let resolver = FixedResolver { entries: vec![(id(30), 5)] };

    state.update_from_bundle(cid, &bundle, id(30), &resolver).unwrap();
    let once = state.contract_state(cid).unwrap();

    state.update_from_bundle(cid, &bundle, id(30), &resolver).unwrap();
    let twice = state.contract_state(cid).unwrap();

    assert_eq!(once.ops, twice.ops);
    assert_eq!(once.assigns, twice.assigns);
    assert_eq!(once.ops.len(), 2);
    assert_eq!(once.assigns.len(), 2);
}

#[test]
fn resolver_failure_reported() {
    let (mut state, cid) = registered_state();
    let bundle = Bundle { transitions: vec![transition(1, Vec::new())] };
    let empty = FixedResolver { entries: Vec::new() };
    let r = state.update_from_bundle(cid, &bundle, id(30), &empty);
    assert!(matches!(r, Err(StateError::Resolver(w, _)) if w == id(30)));
}

#[test]
fn extension_applied_at_minimum_order() {
    // one extension, consumed by two transitions anchored to witnesses at
    // orders 7 and 3: it must be applied at 3, whatever the iteration order.
    let ext = Extension { payload: vec![42] };
    let eid = extension_id_of(&ext);
    let consume = Opout { op: eid, ty: 0, no: 0 };

    let bw_late = BundledWitness {
        pub_witness: PubWitness { witness_id: id(31) },
        bundles: vec![Bundle { transitions: vec![transition(1, vec![consume])] }],
    };
    let bw_early = BundledWitness {
        pub_witness: PubWitness { witness_id: id(32) },
        bundles: vec![Bundle { transitions: vec![transition(2, vec![consume])] }],
    };
    let resolver = FixedResolver { entries: vec![(id(31), 7), (id(32), 3)] };

    for bundles in [vec![bw_late.clone(), bw_early.clone()], vec![bw_early.clone(),
        bw_late.clone()]] {
        let mut state = State::new(MemProvider::new());
        let c = consignment_with(bundles, vec![ext.clone()]);
        state.update_from_consignment(&c, &resolver).unwrap();
        let snap = state.contract_state(contract_id_of(&genesis())).unwrap();
        assert_eq!(snap.exts.len(), 1);
        assert_eq!(snap.exts[0].0, eid);
        assert_eq!(snap.exts[0].1, WitnessOrd { pos: 3, witness_id: id(32) });
    }
}

#[test]
fn unused_extension_not_applied() {
    let ext = Extension { payload: vec![42] };
    let bw = BundledWitness {
        pub_witness: PubWitness { witness_id: id(31) },
        bundles: vec![Bundle { transitions: vec![transition(1, Vec::new())] }],
    };
    let resolver = FixedResolver { entries: vec![(id(31), 7)] };
    let mut state = State::new(MemProvider::new());
    let c = consignment_with(vec![bw], vec![ext]);
    state.update_from_consignment(&c, &resolver).unwrap();
    let snap = state.contract_state(contract_id_of(&genesis())).unwrap();
    assert_eq!(snap.exts.len(), 0);
    assert_eq!(snap.ops.len(), 1);
}

#[test]
fn consignment_fold_is_idempotent() {
    let bw = BundledWitness {
        pub_witness: PubWitness { witness_id: id(31) },
        bundles: vec![Bundle { transitions: vec![transition(1, Vec::new())] }],
    };
    let resolver = FixedResolver { entries: vec![(id(31), 7)] };
    let mut state = State::new(MemProvider::new());
    let c = consignment_with(vec![bw], Vec::new());
    state.update_from_consignment(&c, &resolver).unwrap();
    let once = state.contract_state(contract_id_of(&genesis())).unwrap();
    state.update_from_consignment(&c, &resolver).unwrap();
    let twice = state.contract_state(contract_id_of(&genesis())).unwrap();
    assert_eq!(once.ops, twice.ops);
    assert_eq!(once.assigns, twice.assigns);
}

#[test]
fn transitions_recorded_under_witness_order() {
    let (mut state, cid) = registered_state();
    let t = transition(1, Vec::new());
    let tid = transition_id_of(&t);
    let bundle = Bundle { transitions: vec![t] };
    let resolver = FixedResolver { entries: vec![(id(30), 5)] };
    state.update_from_bundle(cid, &bundle, id(30), &resolver).unwrap();
    let snap = state.contract_state(cid).unwrap();
    assert_eq!(snap.contract_id(), cid);
    assert_eq!(snap.ops, vec![(tid, WitnessOrd { pos: 5, witness_id: id(30) })]);
    assert_eq!(snap.assigns.len(), 1);
    assert_eq!(snap.assigns[0].0, Opout { op: tid, ty: 1, no: 0 });
}

#[test]
fn update_witnesses_reorders() {
    let (mut state, cid) = registered_state();
    let bundle = Bundle { transitions: vec![transition(1, Vec::new())] };
    let resolver = FixedResolver { entries: vec![(id(30), 1000)] };
    state.update_from_bundle(cid, &bundle, id(30), &resolver).unwrap();

    // the witness later finalizes at position 10
    let better = FixedResolver { entries: vec![(id(30), 10)] };
    let res = state.update_witnesses(&better, 100).unwrap();
    assert_eq!(res.updated, 1);
    assert_eq!(res.unresolved, 0);
    let snap = state.contract_state(cid).unwrap();
    assert_eq!(snap.ops[0].1, WitnessOrd { pos: 10, witness_id: id(30) });
}

#[test]
fn rollback_restores_pre_transaction_state() {
    let (mut state, cid) = registered_state();
    state.begin_transaction().unwrap();
    let bundle = Bundle { transitions: vec![transition(1, Vec::new())] };
    let resolver = FixedResolver { entries: vec![(id(30), 5)] };
    state.update_from_bundle(cid, &bundle, id(30), &resolver).unwrap();
    assert_eq!(state.contract_state(cid).unwrap().ops.len(), 1);
    state.rollback_transaction();
    assert_eq!(state.contract_state(cid).unwrap().ops.len(), 0);
}

#[test]
fn commit_keeps_state() {
    let (mut state, cid) = registered_state();
    state.begin_transaction().unwrap();
    let bundle = Bundle { transitions: vec![transition(1, Vec::new())] };
    let resolver = FixedResolver { entries: vec![(id(30), 5)] };
    state.update_from_bundle(cid, &bundle, id(30), &resolver).unwrap();
    state.commit_transaction().unwrap();
    state.rollback_transaction();
    assert_eq!(state.contract_state(cid).unwrap().ops.len(), 1);
}

#[test]
fn update_blinding_changes_amounts_only() {
    let mut amount = PersistedState::Amount(5, id(1), id(2));
    amount.update_blinding(id(9));
    assert_eq!(amount, PersistedState::Amount(5, id(9), id(2)));

    let mut void = PersistedState::Void;
    void.update_blinding(id(9));
    assert_eq!(void, PersistedState::Void);

    let mut data = PersistedState::Data(vec![1], 7);
    data.update_blinding(id(9));
    assert_eq!(data, PersistedState::Data(vec![1], 7));
}

#[test]
fn as_provider_reaches_the_provider() {
    let (mut state, cid) = registered_state();
    assert!(state.as_provider().contract_state(cid).is_ok());
    assert!(state.as_provider_mut().register_contract(&schema(), &genesis()).is_ok());
}
