use unicorn::ssh::auth::{
    authenticate, fingerprint_of, AuthDecision, AuthorizedKey, InMemoryKeyStore, KeyStore, KeyStoreError,
};

fn key(fingerprint: &str, owner: &str) -> AuthorizedKey {
    AuthorizedKey { fingerprint: fingerprint.to_string(), owner_username: owner.to_string() }
}

#[test]
fn empty_store_finds_nothing() {
    let store = InMemoryKeyStore::new();
    assert!(matches!(store.find_key("SHA256:abc"), Ok(None)));
}

#[test]
fn added_key_is_found_and_others_are_not() {
    let mut store = InMemoryKeyStore::new();
    store.add_key(key("SHA256:abc", "alice"));
    let found = store.find_key("SHA256:abc").unwrap().unwrap();
    assert_eq!(found.fingerprint, "SHA256:abc");
    assert_eq!(found.owner_username, "alice");
    assert!(store.find_key("SHA256:xyz").unwrap().is_none());
}

#[test]
fn adding_again_replaces_the_key() {
    let mut store = InMemoryKeyStore::new();
    store.add_key(key("SHA256:abc", "alice"));
    store.add_key(key("SHA256:abc", "bob"));
    assert_eq!(store.find_key("SHA256:abc").unwrap().unwrap().owner_username, "bob");
}

#[test]
fn removed_key_is_gone() {
    let mut store = InMemoryKeyStore::new();
    store.add_key(key("SHA256:abc", "alice"));
    store.add_key(key("SHA256:def", "carol"));
    store.remove_key("SHA256:abc");
    assert!(store.find_key("SHA256:abc").unwrap().is_none());
    assert_eq!(store.find_key("SHA256:def").unwrap().unwrap().owner_username, "carol");
    store.remove_key("SHA256:never-added");
    assert_eq!(store.find_key("SHA256:def").unwrap().unwrap().owner_username, "carol");
}

#[test]
fn from_keys_keeps_the_last_key_per_fingerprint() {
    let store = InMemoryKeyStore::from_keys(vec![
        key("SHA256:one", "alice"),
        key("SHA256:two", "bob"),
        key("SHA256:one", "dave"),
    ]);
    assert_eq!(store.find_key("SHA256:one").unwrap().unwrap().owner_username, "dave");
    assert_eq!(store.find_key("SHA256:two").unwrap().unwrap().owner_username, "bob");
    assert!(store.find_key("SHA256:three").unwrap().is_none());
}

#[test]
fn authenticate_accepts_found_key_as_its_owner() {
    match authenticate(Ok(Some(key("SHA256:abc", "alice")))) {
        AuthDecision::Accept { username } => assert_eq!(username, "alice"),
        AuthDecision::Reject => panic!("a registered key must authenticate"),
    }
}

#[test]
fn authenticate_fails_closed() {
    assert!(matches!(authenticate(Ok(None)), AuthDecision::Reject));
    assert!(matches!(authenticate(Err(KeyStoreError::Backend("db down".to_string()))), AuthDecision::Reject));
}

#[test]
fn store_lookup_then_authenticate() {
    let mut store = InMemoryKeyStore::new();
    assert!(matches!(authenticate(store.find_key("SHA256:abc")), AuthDecision::Reject));
    store.add_key(key("SHA256:abc", "alice"));
    assert!(matches!(authenticate(store.find_key("SHA256:abc")), AuthDecision::Accept { .. }));
    store.remove_key("SHA256:abc");
    assert!(matches!(authenticate(store.find_key("SHA256:abc")), AuthDecision::Reject));
}

#[test]
fn fingerprint_matches_ssh_keygen_format() {
    let public = russh::keys::PublicKey::from_openssh(
        "ssh-ed25519 AAAAC3NzaC1lZDI1NTE5AAAAILM+rvN+ot98qgEN796jTiQfZfG1KaT0PtFDJ/XFSqti user@example.com",
    )
    .unwrap();
    let fingerprint = fingerprint_of(&public);
    assert_eq!(fingerprint, "SHA256:UCUiLr7Pjs9wFFJMDByLgc3NrtdU344OgUM45wZPcIQ");
    assert_eq!(fingerprint.chars().count(), 50);
}

#[test]
fn store_authenticates_public_key_by_fingerprint() {
    let public = russh::keys::PublicKey::from_openssh(
        "ssh-ed25519 AAAAC3NzaC1lZDI1NTE5AAAAILM+rvN+ot98qgEN796jTiQfZfG1KaT0PtFDJ/XFSqti user@example.com",
    )
    .unwrap();
    let mut store = InMemoryKeyStore::new();
    assert!(matches!(store.authenticate_key(&public), AuthDecision::Reject));
    store.add_key(key("SHA256:UCUiLr7Pjs9wFFJMDByLgc3NrtdU344OgUM45wZPcIQ", "alice"));
    match store.authenticate_key(&public) {
        AuthDecision::Accept { username } => assert_eq!(username, "alice"),
        AuthDecision::Reject => panic!("the stored key must authenticate"),
    }
}

#[test]
fn default_store_is_empty() {
    let store = InMemoryKeyStore::default();
    assert!(store.find_key("SHA256:abc").unwrap().is_none());
}
