use siwe_recap::capability::{Capability, NotaBene, ProofCid};
use siwe_recap::value::Value;

// The transport encoding must agree with an independent canonical-JSON
// serializer composed with the same base64 alphabet.
#[test]
fn encoding_matches_independent_canonical_json() {
    let mut cap = Capability::new();
    cap.with_actions_convert(
        "kepler:ens:example.eth://default/kv",
        vec![
            ("kv/get", vec![]),
            (
                "kv/list",
                vec![NotaBene::new()
                    .with_field("max".to_string(), Value::Int(42))
                    .unwrap()
                    .with_field("path".to_string(), Value::Text("/docs".to_string()))
                    .unwrap()],
            ),
        ],
    )
    .unwrap();
    let mh = cid::multihash::Multihash::<64>::wrap(0x12, &[5u8; 32]).unwrap();
    let c = cid::Cid::new_v1(0x55, mh);
    let cid_text = c
        .to_string_of_base(cid::multibase::Base::Base58Btc)
        .unwrap();
    let cap = cap.with_proof(&ProofCid::parse(&cid_text).unwrap());

    // the same structure, through serde_json and serde_jcs
    let mut nb = serde_json::Map::new();
    nb.insert("max".to_string(), serde_json::Value::from(42));
    nb.insert("path".to_string(), serde_json::Value::from("/docs"));
    let mut abilities = serde_json::Map::new();
    abilities.insert("kv/get".to_string(), serde_json::Value::Array(vec![]));
    abilities.insert(
        "kv/list".to_string(),
        serde_json::Value::Array(vec![serde_json::Value::Object(nb)]),
    );
    let mut att = serde_json::Map::new();
    att.insert(
        "kepler:ens:example.eth://default/kv".to_string(),
        serde_json::Value::Object(abilities),
    );
    let mut payload = serde_json::Map::new();
    payload.insert("att".to_string(), serde_json::Value::Object(att));
    payload.insert(
        "prf".to_string(),
        serde_json::Value::Array(vec![serde_json::Value::from(cid_text)]),
    );
    let jcs = serde_jcs::to_vec(&serde_json::Value::Object(payload)).unwrap();
    let expected = base64::encode_config(jcs, base64::URL_SAFE_NO_PAD);

    assert_eq!(cap.encode(), expected);
}

// String escaping in the canonical text must agree with the independent
// serializer, controls and all.
#[test]
fn escaping_matches_independent_canonical_json() {
    let tricky = "quote:\" back:\\ tab:\t nl:\n cr:\r ctl:\u{1} high:\u{1F600}";
    let mut cap = Capability::new();
    cap.with_action_convert(
        "urn:x",
        "kv/list",
        vec![NotaBene::new()
            .with_field("note".to_string(), Value::Text(tricky.to_string()))
            .unwrap()],
    )
    .unwrap();

    let mut nb = serde_json::Map::new();
    nb.insert("note".to_string(), serde_json::Value::from(tricky));
    let mut abilities = serde_json::Map::new();
    abilities.insert(
        "kv/list".to_string(),
        serde_json::Value::Array(vec![serde_json::Value::Object(nb)]),
    );
    let mut att = serde_json::Map::new();
    att.insert("urn:x".to_string(), serde_json::Value::Object(abilities));
    let mut payload = serde_json::Map::new();
    payload.insert("att".to_string(), serde_json::Value::Object(att));
    payload.insert("prf".to_string(), serde_json::Value::Array(vec![]));
    let jcs = serde_jcs::to_vec(&serde_json::Value::Object(payload)).unwrap();
    let expected = base64::encode_config(jcs, base64::URL_SAFE_NO_PAD);

    assert_eq!(cap.encode(), expected);
}

// Decoding accepts exactly the canonical transport: a payload the
// independent serializer produces decodes to the same capability.
#[test]
fn independent_canonical_payload_decodes() {
    let mut att_inner = serde_json::Map::new();
    att_inner.insert("credential/present".to_string(), serde_json::Value::Array(vec![]));
    let mut att = serde_json::Map::new();
    att.insert("credential:*".to_string(), serde_json::Value::Object(att_inner));
    let mut payload = serde_json::Map::new();
    payload.insert("att".to_string(), serde_json::Value::Object(att));
    payload.insert("prf".to_string(), serde_json::Value::Array(vec![]));
    let jcs = serde_jcs::to_vec(&serde_json::Value::Object(payload)).unwrap();
    let transport = base64::encode_config(jcs, base64::URL_SAFE_NO_PAD);

    let decoded = Capability::decode(&transport).unwrap();
    let mut expected = Capability::new();
    expected
        .with_action_convert("credential:*", "credential/present", vec![])
        .unwrap();
    assert_eq!(decoded, expected);
}

#[test]
fn collections_deduplicate_by_equality() {
    let mut s: siwe_recap::set::DedupSet<String> = siwe_recap::set::DedupSet::new();
    assert!(s.insert("a".to_string()));
    assert!(!s.insert("a".to_string()));
    s.insert_all(vec!["b".to_string(), "a".to_string(), "b".to_string()]);
    assert_eq!(s.as_slice(), &["a".to_string(), "b".to_string()]);

    let mut e: siwe_recap::eq_set::EqSet<u64> = siwe_recap::eq_set::EqSet::new();
    assert!(e.insert(1));
    assert!(!e.insert(1));
    e.insert_all(vec![2, 1, 3, 2]);
    assert_eq!(e.as_slice(), &[1, 2, 3]);
}
