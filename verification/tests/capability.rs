use siwe_recap::ability::Ability;
use siwe_recap::capability::{Capability, ConvertError, DecodingError, NotaBene, ProofCid, Target};
use siwe_recap::value::Value;

fn sample_cid_text(seed: u8) -> String {
    let mh = cid::multihash::Multihash::<64>::wrap(0x12, &[seed; 32]).unwrap();
    let c = cid::Cid::new_v1(0x55, mh);
    c.to_string_of_base(cid::multibase::Base::Base58Btc).unwrap()
}

fn nb(key: &str, value: Value) -> NotaBene {
    NotaBene::new().with_field(key.to_string(), value).unwrap()
}

#[test]
fn can_do_exact_lookup() {
    let mut cap = Capability::new();
    cap.with_action_convert("kepler:ens:example.eth://default/kv", "kv/list", vec![])
        .unwrap();
    let target = Target::parse("kepler:ens:example.eth://default/kv").unwrap();
    let other_target = Target::parse("kepler:ens:example.eth://other").unwrap();
    let list = Ability::parse("kv/list").unwrap();
    let get = Ability::parse("kv/get").unwrap();
    assert!(cap.can_do(&target, &list).is_some());
    assert!(cap.can_do(&target, &get).is_none());
    assert!(cap.can_do(&other_target, &list).is_none());
}

#[test]
fn can_validates_before_lookup() {
    let cap = Capability::new();
    assert_eq!(
        cap.can("not a uri", "kv/list").unwrap_err(),
        ConvertError::InvalidTarget
    );
    assert!(matches!(
        cap.can("urn:x", "kv list"),
        Err(ConvertError::InvalidAction(_))
    ));
    assert!(cap.can("urn:x", "kv/list").unwrap().is_none());
}

#[test]
fn failed_conversion_leaves_value_unchanged() {
    let mut cap = Capability::new();
    cap.with_action_convert("urn:x", "kv/list", vec![]).unwrap();
    let before = cap.encode();
    cap.with_action_convert("not a uri", "kv/get", vec![]).unwrap_err();
    cap.with_actions_convert("urn:x", vec![("kv/put", vec![]), ("bad action", vec![])])
        .unwrap_err();
    assert_eq!(cap.encode(), before);
}

#[test]
fn nota_benes_append_and_keep_duplicates() {
    let mut cap = Capability::new();
    let record = nb("max", Value::Int(10));
    let record_again = nb("max", Value::Int(10));
    cap.with_action_convert("urn:x", "kv/list", vec![record]).unwrap();
    cap.with_action_convert("urn:x", "kv/list", vec![record_again]).unwrap();
    let target = Target::parse("urn:x").unwrap();
    let list = Ability::parse("kv/list").unwrap();
    let nbs = cap.can_do(&target, &list).unwrap();
    assert_eq!(nbs.len(), 2, "duplicate records are retained");
    assert_eq!(nbs[0], nbs[1]);
}

#[test]
fn round_trip_simple() {
    let mut cap = Capability::new();
    cap.with_action_convert("credential:*", "credential/present", vec![])
        .unwrap();
    let decoded = Capability::decode(&cap.encode()).unwrap();
    assert_eq!(decoded, cap);
}

#[test]
fn round_trip_with_nota_benes_and_proofs() {
    let mut cap = Capability::new();
    cap.with_actions_convert(
        "kepler:ens:example.eth://default/kv",
        vec![
            ("kv/list", vec![]),
            ("kv/get", vec![nb("path", Value::Text("/docs".to_string()))]),
        ],
    )
    .unwrap();
    cap.with_action_convert(
        "urn:credential:type:type1",
        "credential/present",
        vec![nb(
            "limits",
            Value::Arr(vec![Value::Int(1), Value::Bool(true), Value::Null]),
        )],
    )
    .unwrap();
    let p1 = ProofCid::parse(&sample_cid_text(1)).unwrap();
    let p2 = ProofCid::parse(&sample_cid_text(2)).unwrap();
    let cap = cap.with_proof(&p1).with_proof(&p2);
    let encoded = cap.encode();
    let decoded = Capability::decode(&encoded).unwrap();
    assert_eq!(decoded, cap);
}

#[test]
fn round_trip_after_merge() {
    let mut a = Capability::new();
    a.with_action_convert("urn:a", "kv/list", vec![]).unwrap();
    let p1 = ProofCid::parse(&sample_cid_text(3)).unwrap();
    let a = a.with_proof(&p1);
    let mut b = Capability::new();
    b.with_action_convert("urn:b", "kv/get", vec![]).unwrap();
    let merged = a.merge(b);
    let decoded = Capability::decode(&merged.encode()).unwrap();
    assert_eq!(decoded, merged);
}

#[test]
fn resource_without_the_prefix_is_rejected() {
    assert!(matches!(
        Capability::from_resource_text("urn:other:abc"),
        Err(DecodingError::InvalidResourcePrefix(_))
    ));
}

#[test]
fn decode_rejects_garbage() {
    assert_eq!(
        Capability::decode("!!!not base64!!!").unwrap_err(),
        DecodingError::Base64Decode
    );
    // valid base64 of text that is no canonical payload
    let junk = base64::encode_config("{\"x\":1}", base64::URL_SAFE_NO_PAD);
    Capability::decode(&junk).unwrap_err();
    let junk2 = base64::encode_config("not json at all", base64::URL_SAFE_NO_PAD);
    Capability::decode(&junk2).unwrap_err();
}

#[test]
fn merge_appends_first_operands_records_first() {
    let mut a = Capability::new();
    a.with_action_convert("urn:x", "kv/list", vec![nb("from", Value::Text("a".to_string()))])
        .unwrap();
    let mut b = Capability::new();
    b.with_action_convert("urn:x", "kv/list", vec![nb("from", Value::Text("b".to_string()))])
        .unwrap();
    let merged = a.merge(b);
    let target = Target::parse("urn:x").unwrap();
    let list = Ability::parse("kv/list").unwrap();
    let nbs = merged.can_do(&target, &list).unwrap();
    assert_eq!(nbs.len(), 2);
    assert_eq!(nbs[0], nb("from", Value::Text("a".to_string())));
    assert_eq!(nbs[1], nb("from", Value::Text("b".to_string())));
}

#[test]
fn merge_unites_disjoint_slots_and_proofs() {
    let p_shared = ProofCid::parse(&sample_cid_text(7)).unwrap();
    let p_a = ProofCid::parse(&sample_cid_text(8)).unwrap();
    let p_b = ProofCid::parse(&sample_cid_text(9)).unwrap();

    let mut a = Capability::new();
    a.with_action_convert("urn:a", "kv/list", vec![]).unwrap();
    let a = a.with_proof(&p_shared).with_proof(&p_a);

    let mut b = Capability::new();
    b.with_action_convert("urn:b", "msg/send", vec![]).unwrap();
    let b = b.with_proof(&p_b).with_proof(&p_shared);

    let merged = a.merge(b);
    assert!(merged
        .can_do(
            &Target::parse("urn:a").unwrap(),
            &Ability::parse("kv/list").unwrap()
        )
        .is_some());
    assert!(merged
        .can_do(
            &Target::parse("urn:b").unwrap(),
            &Ability::parse("msg/send").unwrap()
        )
        .is_some());
    let proofs = merged.proofs();
    assert_eq!(proofs.len(), 3, "a shared proof is kept once");
}

#[test]
fn merge_grouping_gives_same_content() {
    let build_a = || {
        let mut c = Capability::new();
        c.with_action_convert("urn:x", "kv/list", vec![nb("k", Value::Int(1))])
            .unwrap();
        c
    };
    let build_b = || {
        let mut c = Capability::new();
        c.with_action_convert("urn:x", "kv/list", vec![nb("k", Value::Int(2))])
            .unwrap();
        c.with_action_convert("urn:y", "msg/send", vec![]).unwrap();
        c
    };
    let build_c = || {
        let mut c = Capability::new();
        c.with_action_convert("urn:x", "kv/get", vec![]).unwrap();
        c
    };
    let left = build_a().merge(build_b()).merge(build_c());
    let right = build_a().merge(build_b().merge(build_c()));
    assert_eq!(left, right, "merge content does not depend on grouping");
}

#[test]
fn builders_keep_iteration_order_canonical() {
    // the same content in two insertion orders encodes identically
    let mut one = Capability::new();
    one.with_action_convert("urn:b", "kv/get", vec![]).unwrap();
    one.with_action_convert("urn:a", "kv/list", vec![]).unwrap();
    let mut two = Capability::new();
    two.with_action_convert("urn:a", "kv/list", vec![]).unwrap();
    two.with_action_convert("urn:b", "kv/get", vec![]).unwrap();
    assert_eq!(one, two);
    assert_eq!(one.encode(), two.encode());
}

#[test]
fn proof_cid_rejects_other_multibase_marks() {
    // a version-zero identifier has no multibase mark
    assert!(ProofCid::parse("QmYwAPJzv5CZsnA625s3Xf2nemtYgPpHdWEz79ojWnPbdG").is_none());
    assert!(ProofCid::parse("").is_none());
    assert!(ProofCid::parse("znotacid").is_none());
}

#[test]
fn nota_bene_rejects_non_canonical_values() {
    // an object with unsorted keys is not canonical
    let bad = Value::Obj(vec![
        ("b".to_string(), Value::Null),
        ("a".to_string(), Value::Null),
    ]);
    assert!(NotaBene::new().with_field("k".to_string(), bad).is_none());
    let good = Value::Obj(vec![
        ("a".to_string(), Value::Null),
        ("b".to_string(), Value::Null),
    ]);
    assert!(NotaBene::new().with_field("k".to_string(), good).is_some());
}

#[test]
fn integers_outside_the_exact_range_are_not_canonical() {
    assert!(NotaBene::new()
        .with_field("n".to_string(), Value::Int(9007199254740991))
        .is_some());
    assert!(NotaBene::new()
        .with_field("n".to_string(), Value::Int(9007199254740992))
        .is_none());
    assert!(NotaBene::new()
        .with_field("n".to_string(), Value::Int(-9007199254740992))
        .is_none());
}

#[test]
fn into_inner_surrenders_parts() {
    let mut cap = Capability::new();
    cap.with_action_convert("urn:x", "kv/list", vec![]).unwrap();
    let (atts, proofs) = cap.into_inner();
    assert_eq!(atts.len(), 1);
    assert_eq!(proofs.len(), 0);
    assert_eq!(atts[0].target().as_str(), "urn:x");
    assert_eq!(atts[0].abilities().len(), 1);
    assert_eq!(atts[0].abilities()[0].ability().to_text(), "kv/list");
}

#[test]
fn abilities_for_looks_up_one_target() {
    let mut cap = Capability::new();
    cap.with_action_convert("urn:x", "kv/list", vec![]).unwrap();
    assert!(cap.abilities_for("urn:x").unwrap().is_some());
    assert!(cap.abilities_for("urn:y").unwrap().is_none());
    assert!(cap.abilities_for("not a uri").is_err());
}
