use rgbstd::consignment::Consignment;
use rgbstd::ids::Id;
use rgbstd::model::{Genesis, Iface, IfaceImpl, IfacePair, Schema, TypeSystem};
use rgbstd::commit::iface_id_of;
use rgbstd::validate::{AcceptAllValidator, FixedResolver, Validity, Warning};

fn id(n: u64) -> Id {
    Id { w0: n, w1: 1, w2: 0, w3: n }
}

fn base(transfer: bool) -> Consignment {
    Consignment {
        version: 2,
        transfer,
        terminals: Vec::new(),
        genesis: Genesis { schema_id: id(1), testnet: true, payload: vec![1, 2, 3] },
        extensions: Vec::new(),
        bundles: Vec::new(),
        schema: Schema { payload: vec![9, 9] },
        ifaces: Vec::new(),
        supplements: Vec::new(),
        types: TypeSystem { payload: vec![4] },
        scripts: Vec::new(),
        attachments: Vec::new(),
        signatures: Vec::new(),
    }
}

fn resolver() -> FixedResolver {
    FixedResolver { entries: Vec::new() }
}

#[test]
fn genesis_only_contract_validates_clean() {
    let c = base(false);
    let vc = c.validate(&AcceptAllValidator, &resolver(), true, false).expect("must be valid");
    assert_eq!(vc.validation_status().validity, Validity::Valid);
    assert!(vc.validation_status().warnings.is_empty());
    assert!(vc.validation_status().failures.is_empty());
}

#[test]
fn wrong_type_flag_warns_but_validates() {
    // the same data with transfer=true, validated as a contract consignment
    let c = base(true);
    let vc = c.validate(&AcceptAllValidator, &resolver(), true, false).expect("still valid");
    assert_eq!(vc.validation_status().validity, Validity::Valid);
    assert_eq!(vc.validation_status().warnings, vec![Warning::ConsignmentTypeMismatch]);
}

#[test]
fn validation_deterministic() {
    let mut c = base(true);
    c.terminals.push((id(77), id(88)));
    let first = c.clone().validate(&AcceptAllValidator, &resolver(), true, false);
    let second = c.validate(&AcceptAllValidator, &resolver(), true, false);
    let s1 = first.expect("valid").into_validation_status();
    let s2 = second.expect("valid").into_validation_status();
    assert_eq!(s1.validity, s2.validity);
    assert_eq!(s1.warnings, s2.warnings);
}

#[test]
fn dangling_terminal_warns_but_validates() {
    let mut c = base(false);
    c.terminals.push((id(77), id(88)));
    let vc = c.validate(&AcceptAllValidator, &resolver(), true, false).expect("usable");
    assert_eq!(vc.validation_status().validity, Validity::Valid);
    assert_eq!(vc.validation_status().warnings, vec![Warning::TerminalAbsent {
        bundle_id: id(77),
    }]);
}

#[test]
fn iface_impl_mismatch_warns() {
    let mut c = base(false);
    let iface = Iface { name: vec![b'A'], payload: vec![1] };
    let claimed = id(123);
    c.ifaces.push(IfacePair { iface: iface.clone(), iimpl: IfaceImpl { iface_id: claimed,
        payload: vec![2] } });
    let expected = iface_id_of(&iface);
    assert_ne!(expected, claimed);
    let vc = c.validate(&AcceptAllValidator, &resolver(), true, false).expect("usable");
    assert_eq!(vc.validation_status().warnings.len(), 1);
    match vc.validation_status().warnings[0] {
        Warning::IfaceImplMismatch { claimed: cl, expected: ex, .. } => {
            assert_eq!(cl, claimed);
            assert_eq!(ex, expected);
        },
        _ => panic!("wrong warning kind"),
    }
}

#[test]
fn matching_iface_impl_is_silent() {
    let mut c = base(false);
    let iface = Iface { name: vec![b'A'], payload: vec![1] };
    let iid = iface_id_of(&iface);
    c.ifaces.push(IfacePair { iface, iimpl: IfaceImpl { iface_id: iid, payload: vec![2] } });
    let vc = c.validate(&AcceptAllValidator, &resolver(), true, false).expect("valid");
    assert!(vc.validation_status().warnings.is_empty());
}

#[test]
fn split_returns_both_parts() {
    let c = base(false);
    let vc = c.clone().validate(&AcceptAllValidator, &resolver(), true, false).expect("valid");
    let (back, status) = vc.split();
    assert_eq!(back, c);
    assert_eq!(status.validity, Validity::Valid);
}
