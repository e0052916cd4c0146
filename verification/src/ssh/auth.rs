//! Public-key lookup for SSH authentication.
//!
//! Authorized keys are looked up by their SHA-256 fingerprint (the
//! `SHA256:...` form that `ssh-keygen -l` prints). A connection is let in
//! only when its key's fingerprint names a stored key; a missing key and a
//! failing key store both reject it.

use vstd::hash_map::StringHashMap;
use vstd::prelude::*;

verus! {

/// A public key this server will accept, keyed by its SHA-256 fingerprint.
#[derive(Debug)]
pub struct AuthorizedKey {
    /// `SHA256:<base64>`, as [`fingerprint_of`] computes it.
    pub fingerprint: String,
    /// Username / account this key authenticates as.
    pub owner_username: String,
}

/// The mathematical content of an [`AuthorizedKey`].
pub struct AuthorizedKeyView {
    pub fingerprint: Seq<char>,
    pub owner_username: Seq<char>,
}

impl View for AuthorizedKey {
    type V = AuthorizedKeyView;

    open spec fn view(&self) -> AuthorizedKeyView {
        AuthorizedKeyView { fingerprint: self.fingerprint@, owner_username: self.owner_username@ }
    }
}

impl Clone for AuthorizedKey {
    fn clone(&self) -> (copy: Self)
        ensures
            copy@ == self@,
    {
        AuthorizedKey {
            fingerprint: self.fingerprint.clone(),
            owner_username: self.owner_username.clone(),
        }
    }
}

/// A key store that could not answer.
#[derive(Debug)]
pub enum KeyStoreError {
    /// The backend failed (e.g. a database was unreachable).
    Backend(String),
}

/// Where authorized public keys live. Looking up a key that is not there
/// gives `Ok(None)`, a normal outcome; `Err` is kept for a backend that
/// failed. Callers treat both as "do not authenticate".
pub trait KeyStore {
    /// Look up a key by its SHA-256 fingerprint.
    fn find_key(&self, fingerprint: &str) -> Result<Option<AuthorizedKey>, KeyStoreError>;
}

/// What a store holding `keys` answers for `fingerprint`.
pub open spec fn lookup(
    keys: Map<Seq<char>, AuthorizedKeyView>,
    fingerprint: Seq<char>,
) -> Option<AuthorizedKeyView> {
    if keys.contains_key(fingerprint) {
        Some(keys[fingerprint])
    } else {
        None
    }
}

/// The keys held after adding `keys` in order to an empty store: each key
/// under its own fingerprint, a later key replacing an earlier one with the
/// same fingerprint.
pub open spec fn keys_map(keys: Seq<AuthorizedKeyView>) -> Map<Seq<char>, AuthorizedKeyView>
    decreases keys.len(),
{
    if keys.len() == 0 {
        Map::empty()
    } else {
        keys_map(keys.drop_last()).insert(keys.last().fingerprint, keys.last())
    }
}

/// The last key in `keys` with the given fingerprint, if any.
pub open spec fn last_with_fingerprint(
    keys: Seq<AuthorizedKeyView>,
    fingerprint: Seq<char>,
) -> Option<AuthorizedKeyView>
    decreases keys.len(),
{
    if keys.len() == 0 {
        None
    } else if keys.last().fingerprint == fingerprint {
        Some(keys.last())
    } else {
        last_with_fingerprint(keys.drop_last(), fingerprint)
    }
}

/// The views of a sequence of keys.
pub open spec fn key_views(keys: Seq<AuthorizedKey>) -> Seq<AuthorizedKeyView> {
    keys.map_values(|k: AuthorizedKey| k@)
}

/// A simple in-memory [`KeyStore`], suitable for local development and as
/// the default until a persistent backend exists.
pub struct InMemoryKeyStore {
    keys: StringHashMap<AuthorizedKey>,
}

impl View for InMemoryKeyStore {
    type V = Map<Seq<char>, AuthorizedKeyView>;

    closed spec fn view(&self) -> Map<Seq<char>, AuthorizedKeyView> {
        self.keys@.map_values(|k: AuthorizedKey| k@)
    }
}

impl InMemoryKeyStore {
    /// Every key is stored under its own fingerprint.
    #[verifier::type_invariant]
    closed spec fn keyed_by_fingerprint(self) -> bool {
        forall|f: Seq<char>| #[trigger] self.keys@.contains_key(f) ==> self.keys@[f].fingerprint@ == f
    }

    /// An empty store: no key authenticates.
    pub fn new() -> (store: Self)
        ensures
            store@ == Map::<Seq<char>, AuthorizedKeyView>::empty(),
    {
        let store = InMemoryKeyStore { keys: StringHashMap::new() };
        assert(store@ =~= Map::<Seq<char>, AuthorizedKeyView>::empty());
        store
    }

    /// Add or replace a key, under its fingerprint.
    pub fn add_key(&mut self, key: AuthorizedKey)
        ensures
            final(self)@ == old(self)@.insert(key.fingerprint@, key@),
    {
        proof {
            use_type_invariant(&*self);
        }
        let ghost before = self.keys@;
        let mut keys = StringHashMap::new();
        std::mem::swap(&mut keys, &mut self.keys);
        let fingerprint = key.fingerprint.clone();
        keys.insert(fingerprint, key);
        self.keys = keys;
        assert(self@ =~= before.map_values(|k: AuthorizedKey| k@).insert(key.fingerprint@, key@));
    }

    /// Remove a key by fingerprint, e.g. when a user revokes it.
    pub fn remove_key(&mut self, fingerprint: &str)
        ensures
            final(self)@ == old(self)@.remove(fingerprint@),
    {
        proof {
            use_type_invariant(&*self);
        }
        let ghost before = self.keys@;
        let mut keys = StringHashMap::new();
        std::mem::swap(&mut keys, &mut self.keys);
        keys.remove(fingerprint);
        self.keys = keys;
        assert(self@ =~= before.map_values(|k: AuthorizedKey| k@).remove(fingerprint@));
    }

    /// A store holding `keys`, added in order: a later key replaces an
    /// earlier one with the same fingerprint.
    pub fn from_keys(keys: Vec<AuthorizedKey>) -> (store: Self)
        ensures
            store@ == keys_map(key_views(keys@)),
    {
        let ghost all = key_views(keys@);
        let mut store = InMemoryKeyStore::new();
        let mut rest = keys;
        let ghost mut k: int = 0;
        assert(key_views(rest@) =~= all.skip(0));
        assert(all.take(0) =~= Seq::<AuthorizedKeyView>::empty());
        while rest.len() > 0
            invariant
                0 <= k <= all.len(),
                all.len() == k + rest@.len(),
                key_views(rest@) == all.skip(k),
                store@ == keys_map(all.take(k)),
            decreases rest@.len(),
        {
            let ghost prev = rest@;
            let key = rest.remove(0);
            proof {
                assert(key_views(prev)[0] == key@);
                assert(all.skip(k)[0] == all[k]);
                assert forall|i: int| 0 <= i < rest@.len() implies key_views(rest@)[i] == all.skip(k + 1)[i] by {
                    assert(rest@[i] == prev[i + 1]);
                    assert(key_views(prev)[i + 1] == all.skip(k)[i + 1]);
                }
                assert(key_views(rest@) =~= all.skip(k + 1));
                let pre = all.take(k + 1);
                assert(pre.drop_last() =~= all.take(k));
                assert(pre.last() == all[k]);
            }
            store.add_key(key);
            proof {
                k = k + 1;
            }
        }
        assert(all.take(k) =~= all);
        store
    }
}

impl Default for InMemoryKeyStore {
    /// An empty store, as [`InMemoryKeyStore::new`] makes.
    fn default() -> (store: Self)
        ensures
            store@ == Map::<Seq<char>, AuthorizedKeyView>::empty(),
    {
        InMemoryKeyStore::new()
    }
}

impl KeyStore for InMemoryKeyStore {
    /// The stored key with this fingerprint, or `Ok(None)`; never an
    /// error. A key found has the fingerprint it was looked up by.
    fn find_key(&self, fingerprint: &str) -> (found: Result<Option<AuthorizedKey>, KeyStoreError>)
        ensures
            found matches Ok(k) && match k {
                Some(key) => lookup(self@, fingerprint@) == Some(key@) && key.fingerprint@ == fingerprint@,
                None => lookup(self@, fingerprint@) is None,
            },
    {
        proof {
            use_type_invariant(self);
        }
        match self.keys.get(fingerprint) {
            Some(key) => Ok(Some(key.clone())),
            None => Ok(None),
        }
    }
}

/// Law: a key that was just added is found under its fingerprint, and
/// adding it changes the answer for no other fingerprint.
pub proof fn lemma_find_after_add(
    keys: Map<Seq<char>, AuthorizedKeyView>,
    key: AuthorizedKeyView,
    fingerprint: Seq<char>,
)
    ensures
        lookup(keys.insert(key.fingerprint, key), fingerprint) == if fingerprint == key.fingerprint {
            Some(key)
        } else {
            lookup(keys, fingerprint)
        },
{
}

/// Law: a key that was just removed is no longer found, and removing it
/// changes the answer for no other fingerprint.
pub proof fn lemma_find_after_remove(
    keys: Map<Seq<char>, AuthorizedKeyView>,
    removed: Seq<char>,
    fingerprint: Seq<char>,
)
    ensures
        lookup(keys.remove(removed), fingerprint) == if fingerprint == removed {
            None
        } else {
            lookup(keys, fingerprint)
        },
{
}

/// Law: an empty store finds no key, so nothing authenticates until a key
/// is added.
pub proof fn lemma_empty_store_finds_nothing(fingerprint: Seq<char>)
    ensures
        lookup(Map::empty(), fingerprint) is None,
{
}

/// Law: a store built from a list of keys answers each fingerprint with the
/// last key in the list that has it.
pub proof fn lemma_from_keys_lookup(keys: Seq<AuthorizedKeyView>, fingerprint: Seq<char>)
    ensures
        lookup(keys_map(keys), fingerprint) == last_with_fingerprint(keys, fingerprint),
    decreases keys.len(),
{
    if keys.len() > 0 {
        lemma_from_keys_lookup(keys.drop_last(), fingerprint);
    }
}

/// The outcome of public-key authentication.
#[derive(Debug)]
pub enum AuthDecision {
    /// Let the connection in, authenticated as `username`.
    Accept { username: String },
    /// Turn the key away.
    Reject,
}

/// Decide a public-key login from the key store's answer for the key's
/// fingerprint: accept, as the key's owner, only when a key was found;
/// reject when none was found and when the store failed (fail closed).
pub fn authenticate(found: Result<Option<AuthorizedKey>, KeyStoreError>) -> (decision: AuthDecision)
    ensures
        match found {
            Ok(Some(key)) => decision matches AuthDecision::Accept { username } && username@ == key.owner_username@,
            _ => decision is Reject,
        },
{
    match found {
        Ok(Some(key)) => AuthDecision::Accept { username: key.owner_username },
        _ => AuthDecision::Reject,
    }
}

/// `russh::keys::PublicKey` (the `ssh-key` crate's public key), carried
/// opaquely from the SSH connection to [`fingerprint_of`].
#[verifier::external_type_specification]
#[verifier::external_body]
pub struct ExPublicKey(russh::keys::PublicKey);

/// A character of the standard Base64 alphabet.
pub open spec fn is_base64_char(c: char) -> bool {
    ('A' <= c && c <= 'Z') || ('a' <= c && c <= 'z') || ('0' <= c && c <= '9') || c == '+' || c == '/'
}

/// `fp` has the form of a SHA-256 key fingerprint: `SHA256:` followed by
/// the 32-byte digest in unpadded standard Base64.
pub open spec fn is_sha256_fingerprint(fp: Seq<char>) -> bool {
    &&& fp.len() == 50
    &&& fp.take(7) == seq!['S', 'H', 'A', '2', '5', '6', ':']
    &&& forall|i: int| 7 <= i < 50 ==> is_base64_char(#[trigger] fp[i])
}

/// `decision` is the one owed to a key that the store answered with
/// `found`: accepted as its owner when found, rejected otherwise.
pub open spec fn decided(found: Option<AuthorizedKeyView>, decision: AuthDecision) -> bool {
    match found {
        Some(key) => decision matches AuthDecision::Accept { username } && username@ == key.owner_username,
        None => decision is Reject,
    }
}

/// The fingerprint that `PublicKey::fingerprint(HashAlg::Sha256)`, written
/// with its `Display`, gives for `key`: `SHA256:` and the unpadded
/// standard Base64 of the SHA-256 digest of the key's SSH wire encoding.
pub uninterp spec fn key_fingerprint(key: russh::keys::PublicKey) -> Seq<char>;

/// The SHA-256 fingerprint of a public key in the standard
/// `SHA256:<base64>` form (the string `ssh-keygen -l` prints).
///
/// Trusted: calls `PublicKey::fingerprint` with the default hash
/// algorithm (SHA-256) and formats the result with its `Display`, which
/// writes `SHA256:` and the 32-byte digest in unpadded standard Base64
/// (43 characters). The result depends on the key alone, and is named
/// [`key_fingerprint`]; the digest itself is not written out here.
#[verifier::external_body]
pub fn fingerprint_of(public_key: &russh::keys::PublicKey) -> (fingerprint: String)
    ensures
        fingerprint@ == key_fingerprint(*public_key),
        is_sha256_fingerprint(fingerprint@),
{
    public_key.fingerprint(Default::default()).to_string()
}

impl InMemoryKeyStore {
    /// Decide a public-key login against this store: the key's SHA-256
    /// fingerprint is looked up, and the login is accepted, as the stored
    /// key's owner, only when a key is stored under it.
    pub fn authenticate_key(&self, public_key: &russh::keys::PublicKey) -> (decision: AuthDecision)
        ensures
            decided(lookup(self@, key_fingerprint(*public_key)), decision),
    {
        let fingerprint = fingerprint_of(public_key);
        let found = self.find_key(fingerprint.as_str());
        let decision = authenticate(found);
        assert(decided(lookup(self@, fingerprint@), decision));
        decision
    }
}

} // verus!
