use siwe_recap::capability::Capability;
use siwe_recap::message::{HostMessage, VerificationError};
use siwe_recap::RESOURCE_PREFIX;

fn fresh_message() -> HostMessage {
    HostMessage {
        statement: None,
        uri: "did:key:example".to_string(),
        resources: vec![],
    }
}

fn delegation() -> Capability {
    let mut cap = Capability::new();
    cap.with_actions_convert("urn:credential:type:type1", vec![("credential/present", vec![])])
        .unwrap();
    cap.with_actions_convert(
        "kepler:ens:example.eth://default/kv",
        vec![("kv/list", vec![]), ("kv/get", vec![]), ("kv/metadata", vec![])],
    )
    .unwrap();
    cap
}

#[test]
fn fresh_build_sets_exact_fields() {
    let cap = delegation();
    let msg = cap.build_message(fresh_message()).unwrap();
    assert_eq!(msg.statement.as_deref(), Some(cap.to_statement().as_str()));
    assert_eq!(msg.resources.len(), 1);
    let expected_resource = format!("{}{}", RESOURCE_PREFIX, cap.encode());
    assert_eq!(msg.resources[0], expected_resource);
    assert_eq!(msg.uri, "did:key:example");
}

#[test]
fn statement_text_is_the_protocol_clause() {
    let cap = delegation();
    assert_eq!(
        cap.to_statement(),
        "I further authorize the stated URI to perform the following actions on my behalf: \
         (1) 'kv': 'get', 'list', 'metadata' for 'kepler:ens:example.eth://default/kv'. \
         (2) 'credential': 'present' for 'urn:credential:type:type1'."
    );
}

#[test]
fn statement_groups_by_namespace_within_target() {
    let mut cap = Capability::new();
    cap.with_actions_convert(
        "urn:x",
        vec![("kv*/read", vec![]), ("kv/list", vec![]), ("msg/send", vec![])],
    )
    .unwrap();
    assert_eq!(
        cap.to_statement(),
        "I further authorize the stated URI to perform the following actions on my behalf: \
         (1) 'kv': 'list' for 'urn:x'. \
         (2) 'kv*': 'read' for 'urn:x'. \
         (3) 'msg': 'send' for 'urn:x'."
    );
}

#[test]
fn empty_capability_statement_is_the_preamble() {
    let cap = Capability::new();
    assert_eq!(
        cap.to_statement(),
        "I further authorize the stated URI to perform the following actions on my behalf:"
    );
}

#[test]
fn statement_append_keeps_existing_text() {
    let mut message = fresh_message();
    message.statement = Some("Some custom statement.".to_string());
    let cap = delegation();
    let msg = cap.build_message(message).unwrap();
    let expected = format!("Some custom statement. {}", cap.to_statement());
    assert_eq!(msg.statement.as_deref(), Some(expected.as_str()));
}

#[test]
fn empty_capability_leaves_message_unchanged() {
    let mut message = fresh_message();
    message.statement = Some("Some custom statement.".to_string());
    message.resources = vec!["http://example.com".to_string()];
    let before = HostMessage {
        statement: message.statement.clone(),
        uri: message.uri.clone(),
        resources: message.resources.clone(),
    };
    let msg = Capability::new().build_message(message).unwrap();
    assert_eq!(msg, before);
}

#[test]
fn positive_verification() {
    let cap = delegation();
    let msg = cap.build_message(fresh_message()).unwrap();
    let recovered = Capability::extract_and_verify(&msg).unwrap().unwrap();
    assert_eq!(recovered, cap);
}

#[test]
fn positive_verification_with_prior_statement_and_resources() {
    let mut message = fresh_message();
    message.statement = Some("Some custom statement.".to_string());
    message.resources = vec!["http://example.com".to_string()];
    let cap = delegation();
    let msg = cap.build_message(message).unwrap();
    let recovered = Capability::extract_and_verify(&msg).unwrap().unwrap();
    assert_eq!(recovered, cap);
}

#[test]
fn altered_statement_is_rejected() {
    let cap = delegation();
    let mut msg = cap.build_message(fresh_message()).unwrap();
    if let Some(statement) = msg.statement.as_mut() {
        statement.push_str(" I am the walrus!");
    }
    assert!(matches!(
        Capability::extract_and_verify(&msg),
        Err(VerificationError::IncorrectStatement(_))
    ));
}

#[test]
fn missing_statement_is_rejected() {
    let cap = delegation();
    let mut msg = cap.build_message(fresh_message()).unwrap();
    msg.statement = None;
    assert!(matches!(
        Capability::extract_and_verify(&msg),
        Err(VerificationError::IncorrectStatement(_))
    ));
}

#[test]
fn no_capability_resource_passes_with_nothing() {
    let msg = HostMessage {
        statement: Some("Some custom statement.".to_string()),
        uri: "did:key:example".to_string(),
        resources: vec!["http://example.com".to_string()],
    };
    assert!(Capability::extract_and_verify(&msg).unwrap().is_none());
}

#[test]
fn interleaved_resources_hide_the_capability() {
    // only the last resource entry is considered
    let cap = delegation();
    let mut msg = cap.build_message(fresh_message()).unwrap();
    msg.resources.push("http://example.com".to_string());
    assert!(Capability::extract_and_verify(&msg).unwrap().is_none());
}

#[test]
fn undecodable_resource_is_an_error_not_absence() {
    let msg = HostMessage {
        statement: None,
        uri: "did:key:example".to_string(),
        resources: vec!["urn:recap:!!!not-base64!!!".to_string()],
    };
    assert!(matches!(
        Capability::extract_and_verify(&msg),
        Err(VerificationError::Decoding(_))
    ));
}
