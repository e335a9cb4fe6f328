use siwe_recap::ability::{Ability, AbilityName, AbilityNamespace, ActionParseError};
use siwe_recap::action::Action;
use siwe_recap::error::Error;
use siwe_recap::namespace::Namespace;

#[test]
fn ability_invalid_namespace() {
    for s in [
        "https://example.com/",
        "-my-namespace:",
        "my-namespace-/",
        "my--namespace[]",
        "not a valid namespace",
        "",
    ] {
        AbilityNamespace::parse(s).unwrap_err();
    }
}

#[test]
fn ability_valid_namespace() {
    for s in ["my-namespace", "My-nAmespac3-2"] {
        AbilityNamespace::parse(s).unwrap();
    }
}

#[test]
fn valid_abilities() {
    for s in ["credential/present", "kv/list", "some-ns/some-name", "msg/*"] {
        Ability::parse(s).unwrap();
    }
}

#[test]
fn invalid_abilities() {
    for s in [
        "credential ns/present",
        "kv-list",
        "some:ns/some-name",
        "msg/wrong/str",
        "/",
    ] {
        Ability::parse(s).unwrap_err();
    }
}

#[test]
fn ordering() {
    let ab0: Ability = Ability::parse("a/b").unwrap();
    let ab1: Ability = Ability::parse("a/c").unwrap();
    let ab2: Ability = Ability::parse("aa/a").unwrap();
    let ab3: Ability = Ability::parse("b/a").unwrap();
    let ab4: Ability = Ability::parse("kv*/read").unwrap();
    let ab5: Ability = Ability::parse("kv/list").unwrap();
    let ab6: Ability = Ability::parse("kv/read").unwrap();
    let ab7: Ability = Ability::parse("kva/get").unwrap();

    assert!(ab0 < ab1, "abilities are sorted by byte value");
    assert!(ab1 < ab2, "abilities are sorted by byte value");
    assert!(ab2 < ab3, "abilities are sorted by byte value");
    assert!(ab3 < ab4, "abilities are sorted by byte value");
    assert!(ab4 < ab5, "* is sorted before /");
    assert!(ab5 < ab6, "abilities are sorted by byte value");
    assert!(ab6 < ab7, "abilities are sorted by byte value");
}

#[test]
fn ability_accessors_and_text() {
    let ab = Ability::parse("kv/list").unwrap();
    assert_eq!(ab.namespace().as_str(), "kv");
    assert_eq!(ab.name().as_str(), "list");
    assert_eq!(ab.to_text(), "kv/list");
    assert_eq!(ab.len(), 7);
    assert!(!ab.is_empty());
    let rebuilt = Ability::new(
        AbilityNamespace::parse("kv").unwrap(),
        AbilityName::parse("list").unwrap(),
    );
    assert_eq!(ab, rebuilt);
}

#[test]
fn ability_missing_separator() {
    assert!(matches!(
        Ability::parse("kv-list"),
        Err(ActionParseError::MissingSeparator)
    ));
}

#[test]
fn namespace_invalid_namespace() {
    Namespace::parse("https://example.com/").unwrap_err();
}

#[test]
fn namespace_valid_namespace() {
    Namespace::parse("my-namespace").unwrap();
}

#[test]
fn namespace_error_kinds() {
    assert_eq!(
        Namespace::parse("-abc").unwrap_err(),
        Error::InvalidNamespaceHyphens
    );
    assert_eq!(
        Namespace::parse("ab--c").unwrap_err(),
        Error::InvalidNamespaceHyphens
    );
    assert_eq!(
        Namespace::parse("abc-").unwrap_err(),
        Error::InvalidNamespaceHyphens
    );
    assert_eq!(
        Namespace::parse("ab:c").unwrap_err(),
        Error::InvalidNamespaceChars
    );
    assert_eq!(Namespace::parse("").unwrap_err(), Error::InvalidNamespaceHyphens);
}

#[test]
fn action_grammar_matches_the_ability_grammar() {
    Action::parse("credential/present").unwrap();
    Action::parse("some-ns/some-name").unwrap();
    Action::parse("msg/*").unwrap();
    Action::parse("/").unwrap_err();
    Action::parse("kv-list").unwrap_err();
    Action::parse("some:ns/some-name").unwrap_err();
    Action::parse("msg/wrong/str").unwrap_err();
    let a = Action::parse("kv/list").unwrap();
    assert_eq!(a.namespace().as_str(), "kv");
    assert_eq!(a.name().as_str(), "list");
}
