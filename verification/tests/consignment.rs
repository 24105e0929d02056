use rgbstd::consignment::Consignment;
use rgbstd::ids::Id;
use rgbstd::model::{Assignment, Bundle, BundledWitness, Extension, Genesis, GraphSeal,
    PersistedState, PubWitness, Schema, Seal, Transition, TypeSystem};
use rgbstd::commit::{bundle_id_of, seal_secret};
use rgbstd::armor::{unarmor, ArmorError};

fn id(n: u64) -> Id {
    Id { w0: n, w1: n ^ 7, w2: 0, w3: 1 }
}

fn genesis() -> Genesis {
    Genesis { schema_id: id(1), testnet: true, payload: vec![1, 2, 3] }
}

fn base(transfer: bool) -> Consignment {
    Consignment {
        version: 2,
        transfer,
        terminals: Vec::new(),
        genesis: genesis(),
        extensions: Vec::new(),
        bundles: Vec::new(),
        schema: Schema { payload: vec![9, 9] },
        ifaces: Vec::new(),
        supplements: Vec::new(),
        types: TypeSystem { payload: vec![4] },
        scripts: Vec::new(),
        attachments: Vec::new(),
        signatures: Vec::new(),
    }
}

fn bundle_with_concealed_seal(secret: Id) -> Bundle {
    Bundle {
        transitions: vec![Transition {
            contract_id: id(50),
            transition_type: 1,
            inputs: Vec::new(),
            assignments: vec![Assignment {
                ty: 1,
                seal: Seal::Concealed(secret),
                state: PersistedState::Amount(10, id(60), id(61)),
            }],
            payload: Vec::new(),
        }],
    }
}

#[test]
fn contract_str_round_trip() {
    let mut c = base(false);
    c.extensions.push(Extension { payload: vec![7, 7, 7] });
    let text = c.armor();
    let d = unarmor(&text).expect("contract from str should work");
    assert_eq!(d, c, "contract string round trip fails");
    assert_eq!(d.consignment_id(), c.consignment_id());
}

#[test]
fn error_contract_strs() {
    let c = base(false);
    let good = c.armor();
    assert!(unarmor(&good).is_ok());

    // Wrong Id
    let mut bad_id = good.clone();
    bad_id[40] = if bad_id[40] == b'0' { b'1' } else { b'0' };
    assert!(unarmor(&bad_id).is_err());

    // Wrong checksum
    let mut bad_ck = good.clone();
    bad_ck[295] = if bad_ck[295] == b'0' { b'1' } else { b'0' };
    assert!(unarmor(&bad_ck).is_err());
}

#[test]
fn transfer_str_round_trip() {
    let mut c = base(true);
    c.terminals.push((id(100), id(200)));
    let text = c.armor();
    let d = unarmor(&text).expect("transfer from str should work");
    assert_eq!(d, c, "transfer string round trip fails");
    assert_eq!(d.consignment_id(), c.consignment_id());
}

#[test]
fn error_transfer_strs() {
    let c = base(true);
    let good = c.armor();
    assert!(unarmor(&good).is_ok());

    // Wrong Id
    let mut bad_id = good.clone();
    bad_id[99] = if bad_id[99] == b'0' { b'1' } else { b'0' };
    assert!(unarmor(&bad_id).is_err());

    // Wrong checksum
    let mut bad_ck = good.clone();
    bad_ck[353] = if bad_ck[353] == b'0' { b'1' } else { b'0' };
    assert!(unarmor(&bad_ck).is_err());
}

#[test]
fn error_kinds() {
    let c = base(false);
    let good = c.armor();

    // truncation is malformed
    let short = good[..100].to_vec();
    assert_eq!(unarmor(&short), Err(ArmorError::Malformed));

    // flipping the declared type is a type mismatch
    let mut flipped = good.clone();
    flipped[119..127].copy_from_slice(b"transfer");
    assert_eq!(unarmor(&flipped), Err(ArmorError::TypeMismatch));

    // unsorted terminals violate the structural bounds
    let mut unsorted = base(false);
    unsorted.terminals.push((id(5), id(1)));
    unsorted.terminals.push((id(4), id(1)));
    assert_eq!(unarmor(&unsorted.armor()), Err(ArmorError::Structure));
}

#[test]
fn identity_stable_under_reveal() {
    let revealed = GraphSeal { txid: id(77), vout: 3, blinding: 99 };
    let secret = seal_secret(&revealed);
    let bundle = bundle_with_concealed_seal(secret);
    let bid = bundle_id_of(&bundle);

    let mut c = base(true);
    c.terminals.push((bid, secret));
    c.bundles.push(BundledWitness { pub_witness: PubWitness { witness_id: id(30) },
        bundles: vec![bundle] });

    let before = c.consignment_id();
    let reveals = vec![(secret, revealed)];
    let r = c.reveal_terminal_seals(&reveals);
    assert_eq!(r.consignment_id(), before);
    // and the seal is now in fact revealed
    match r.bundles[0].bundles[0].transitions[0].assignments[0].seal {
        Seal::Revealed(g) => assert_eq!(g, revealed),
        Seal::Concealed(_) => panic!("seal was not revealed"),
    }
}

#[test]
fn reveal_skips_mismatched_entries() {
    let revealed = GraphSeal { txid: id(77), vout: 3, blinding: 99 };
    let secret = seal_secret(&revealed);
    let bundle = bundle_with_concealed_seal(secret);
    let bid = bundle_id_of(&bundle);

    let mut c = base(true);
    c.terminals.push((bid, secret));
    c.bundles.push(BundledWitness { pub_witness: PubWitness { witness_id: id(30) },
        bundles: vec![bundle] });

    // a reveal entry whose seal does not conceal to the secret is ignored
    let wrong = GraphSeal { txid: id(78), vout: 0, blinding: 0 };
    let before = c.consignment_id();
    let r = c.reveal_terminal_seals(&vec![(secret, wrong)]);
    assert_eq!(r.consignment_id(), before);
    match r.bundles[0].bundles[0].transitions[0].assignments[0].seal {
        Seal::Concealed(s) => assert_eq!(s, secret),
        Seal::Revealed(_) => panic!("mismatched reveal was applied"),
    }
}

#[test]
fn identity_ignores_collection_order() {
    let mut a = base(false);
    a.extensions.push(Extension { payload: vec![1] });
    a.extensions.push(Extension { payload: vec![2] });
    let mut b = base(false);
    b.extensions.push(Extension { payload: vec![2] });
    b.extensions.push(Extension { payload: vec![1] });
    assert_eq!(a.consignment_id(), b.consignment_id());
}

#[test]
fn into_contract_clears_flag() {
    let c = base(true);
    let d = c.into_contract();
    assert!(!d.transfer);
    // relabeling changes identity, since the flag is committed
    assert_ne!(d.consignment_id(), base(true).consignment_id());
}

#[test]
fn accessors_report_content() {
    let c = base(false);
    assert_eq!(c.schema_id(), rgbstd::commit::schema_id_of(&c.schema));
    assert_eq!(c.contract_id(), rgbstd::commit::contract_id_of(&c.genesis));
    assert_eq!(c.genesis(), &c.genesis);
    assert_eq!(c.extensions().len(), 0);
    assert_eq!(c.bundled_witnesses().len(), 0);
}

#[test]
fn from_array_packs_big_endian() {
    let mut b = [0u8; 32];
    b[7] = 1;
    b[15] = 2;
    b[23] = 3;
    b[31] = 4;
    let i = Id::from_array(b);
    assert_eq!(i, Id { w0: 1, w1: 2, w2: 3, w3: 4 });
}
