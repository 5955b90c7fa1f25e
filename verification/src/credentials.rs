//! The credential store: named provider credentials held in insertion
//! order, with at most one credential per provider name, plus the encrypted
//! persistence of the whole set as one base64 blob.

use crate::crypto::{
    b64_decode, b64_encode, base64_of, gcm_decrypt, gcm_encrypt, fixed_nonce, gcm_seal_of,
    spec_fixed_nonce,
};
use crate::json::{
    cred_pairs_view, lemma_cred_entries_snoc, lemma_cred_map_json_injective,
    lemma_push_entries_snoc, opt_str_view, parse_cred_map, push_cred_entry, push_push_entry,
    spec_config_update_json, spec_cred_entries_json, spec_cred_entry_json, spec_cred_map_json,
    spec_entry_of, spec_push_entries_json, CredEntry,
};
use crate::text::{chars_to_string, str_eq, str_to_chars, string_from_utf8};
use vstd::prelude::*;

verus! {

/// One provider's credential: the API key it authenticates with, and an
/// optional base URL overriding the provider's default endpoint.
#[derive(Debug)]
pub struct ProviderConfig {
    pub api_key: String,
    pub base_url: Option<String>,
}

/// The abstract value of a credential.
pub ghost struct ConfigView {
    pub api_key: Seq<char>,
    pub base_url: Option<Seq<char>>,
}

impl View for ProviderConfig {
    type V = ConfigView;

    open spec fn view(&self) -> ConfigView {
        ConfigView { api_key: self.api_key@, base_url: opt_str_view(self.base_url) }
    }
}

impl ProviderConfig {
    /// A field-for-field copy.
    pub fn duplicate(&self) -> (r: ProviderConfig)
        ensures
            r@ == self@,
    {
        ProviderConfig {
            api_key: self.api_key.clone(),
            base_url: match &self.base_url {
                Some(u) => Some(u.clone()),
                None => None,
            },
        }
    }
}

/// What a credential-store operation reports when it cannot do its work.
#[derive(Clone, Copy, Debug, PartialEq, Eq, Structural)]
pub enum StoreError {
    /// The asked-for provider has no stored credential.
    NotFound,
    /// The stored blob is not canonical base64.
    DecodeFailed,
    /// Authentication of the stored blob failed: wrong key or corrupted
    /// data.
    DecryptFailed,
    /// The decrypted bytes are not UTF-8 text.
    InvalidUtf8,
    /// The decrypted text is not a credential mapping.
    ParseFailed,
    /// The cipher refused to seal the plaintext.
    EncryptFailed,
}

impl StoreError {
    /// A human-readable account of the error.
    pub fn message(&self) -> (r: String)
        ensures
            *self is NotFound ==> r@ == "Provider not found"@,
            *self is DecodeFailed ==> r@ == "Failed to decode config data"@,
            *self is DecryptFailed ==> r@ == "Failed to decrypt config, data may be corrupted"@,
            *self is InvalidUtf8 ==> r@ == "Config data is not valid text"@,
            *self is ParseFailed ==> r@ == "Config data is not a credential mapping"@,
            *self is EncryptFailed ==> r@ == "Failed to encrypt config"@,
    {
        match self {
            StoreError::NotFound => String::from_str("Provider not found"),
            StoreError::DecodeFailed => String::from_str("Failed to decode config data"),
            StoreError::DecryptFailed => String::from_str(
                "Failed to decrypt config, data may be corrupted",
            ),
            StoreError::InvalidUtf8 => String::from_str("Config data is not valid text"),
            StoreError::ParseFailed => String::from_str("Config data is not a credential mapping"),
            StoreError::EncryptFailed => String::from_str("Failed to encrypt config"),
        }
    }
}

/// The "not found" report for one provider, named.
pub fn not_found_message(provider: &str) -> (r: String)
    ensures
        r@ == "Provider '"@ + provider@ + "' not found"@,
{
    let mut out = str_to_chars("Provider '");
    let mut mid = str_to_chars(provider);
    out.append(&mut mid);
    let mut tail = str_to_chars("' not found");
    out.append(&mut tail);
    chars_to_string(&out)
}

/// Index of the entry stored under `name`, or -1 when there is none.
pub open spec fn spec_find_name(es: Seq<CredEntry>, name: Seq<char>) -> int
    decreases es.len(),
{
    if es.len() == 0 {
        -1
    } else if es[0].name == name {
        0
    } else {
        let r = spec_find_name(es.drop_first(), name);
        if r == -1 {
            -1
        } else {
            r + 1
        }
    }
}

pub proof fn lemma_find_name_is_first(es: Seq<CredEntry>, name: Seq<char>)
    ensures
        -1 <= spec_find_name(es, name) < es.len(),
        spec_find_name(es, name) >= 0 ==> es[spec_find_name(es, name)].name == name && (forall|
            j: int,
        |
            0 <= j < spec_find_name(es, name) ==> es[j].name != name),
        spec_find_name(es, name) == -1 ==> forall|j: int|
            0 <= j < es.len() ==> es[j].name != name,
    decreases es.len(),
{
    if es.len() > 0 && es[0].name != name {
        lemma_find_name_is_first(es.drop_first(), name);
        let r1 = spec_find_name(es.drop_first(), name);
        if r1 >= 0 {
            assert(es[r1 + 1] == es.drop_first()[r1]);
            assert forall|j: int| 0 <= j < r1 + 1 implies es[j].name != name by {
                if j > 0 {
                    assert(es[j] == es.drop_first()[j - 1]);
                }
            };
        } else {
            assert forall|j: int| 0 <= j < es.len() implies es[j].name != name by {
                if j > 0 {
                    assert(es[j] == es.drop_first()[j - 1]);
                }
            };
        }
    }
}

/// The stored credential under `name`, if any.
pub open spec fn spec_lookup(es: Seq<CredEntry>, name: Seq<char>) -> Option<CredEntry> {
    let i = spec_find_name(es, name);
    if i == -1 {
        None
    } else {
        Some(es[i])
    }
}

/// The entries after an upsert of `e`: replacement in place when its name
/// is present, an append at the end when it is not.
pub open spec fn spec_save(es: Seq<CredEntry>, e: CredEntry) -> Seq<CredEntry> {
    let i = spec_find_name(es, e.name);
    if i == -1 {
        es.push(e)
    } else {
        es.update(i, e)
    }
}

/// The entries after a delete of `name`: unchanged when absent.
pub open spec fn spec_delete(es: Seq<CredEntry>, name: Seq<char>) -> Seq<CredEntry> {
    let i = spec_find_name(es, name);
    if i == -1 {
        es
    } else {
        es.remove(i)
    }
}

/// What is saved is found: after an upsert of `e`, the lookup of `e.name`
/// returns exactly `e`, whatever was stored before.
pub proof fn lemma_lookup_after_save(es: Seq<CredEntry>, e: CredEntry)
    ensures
        spec_lookup(spec_save(es, e), e.name) == Some(e),
{
    lemma_find_name_is_first(es, e.name);
    let i = spec_find_name(es, e.name);
    let es2 = spec_save(es, e);
    lemma_find_name_is_first(es2, e.name);
    let k = spec_find_name(es2, e.name);
    if i == -1 {
        assert(es2[es.len() as int].name == e.name);
        assert(k >= 0);
        if k < es.len() {
            assert(es2[k] == es[k]);
        }
    } else {
        assert(es2[i].name == e.name);
        assert(k >= 0);
        if k < i {
            assert(es2[k] == es[k]);
        }
        assert(k == i);
    }
}

/// A lookup of any other name is untouched by an upsert.
pub proof fn lemma_lookup_after_save_other(es: Seq<CredEntry>, e: CredEntry, other: Seq<char>)
    requires
        other != e.name,
    ensures
        spec_lookup(spec_save(es, e), other) == spec_lookup(es, other),
{
    lemma_find_name_is_first(es, e.name);
    lemma_find_name_is_first(es, other);
    let es2 = spec_save(es, e);
    lemma_find_name_is_first(es2, other);
    let i = spec_find_name(es, e.name);
    let j = spec_find_name(es, other);
    let k = spec_find_name(es2, other);
    if j == -1 {
        assert forall|x: int| 0 <= x < es2.len() implies es2[x].name != other by {
            if x < es.len() && (i == -1 || x != i) {
                assert(es2[x] == es[x]);
            }
        };
    } else {
        if i == -1 || j != i {
            assert(es2[j] == es[j]);
        }
        assert(es2[j].name == other);
        assert(k >= 0);
        if k < j {
            if i == -1 || k != i {
                assert(es2[k] == es[k]);
            }
        }
        assert(k == j);
        assert(es2[k] == es[k]);
    }
}

/// How the stored count moves: an upsert of a new name grows it by one, an
/// upsert of a present name keeps it, and a delete of a present name
/// shrinks it by one.
pub proof fn lemma_save_delete_lengths(es: Seq<CredEntry>, e: CredEntry, name: Seq<char>)
    ensures
        spec_lookup(es, e.name) is None ==> spec_save(es, e).len() == es.len() + 1,
        spec_lookup(es, e.name) is Some ==> spec_save(es, e).len() == es.len(),
        spec_lookup(es, name) is None ==> spec_delete(es, name).len() == es.len(),
        spec_lookup(es, name) is Some ==> spec_delete(es, name).len() == es.len() - 1,
{
    lemma_find_name_is_first(es, e.name);
    lemma_find_name_is_first(es, name);
}

/// Named provider credentials in insertion order, at most one per provider
/// name.
pub struct CredentialStore {
    entries: Vec<(String, ProviderConfig)>,
}

impl View for CredentialStore {
    type V = Seq<CredEntry>;

    closed spec fn view(&self) -> Seq<CredEntry> {
        self.entries@.map_values(
            |p: (String, ProviderConfig)|
                CredEntry {
                    name: p.0@,
                    api_key: p.1.api_key@,
                    base_url: opt_str_view(p.1.base_url),
                },
        )
    }
}

impl CredentialStore {
    /// Every provider name appears at most once.
    pub open spec fn wf(&self) -> bool {
        forall|i: int, j: int| 0 <= i < j < self@.len() ==> self@[i].name != self@[j].name
    }

    /// An empty store.
    pub fn new() -> (r: CredentialStore)
        ensures
            r.wf(),
            r@ == Seq::<CredEntry>::empty(),
    {
        let r = CredentialStore { entries: Vec::new() };
        proof {
            assert(r@ =~= Seq::<CredEntry>::empty());
        }
        r
    }

    /// How many providers have a stored credential.
    pub fn len(&self) -> (r: usize)
        ensures
            r == self@.len(),
    {
        self.entries.len()
    }

    fn find_index(&self, provider: &str) -> (r: Option<usize>)
        ensures
            match r {
                Some(i) => i < self@.len() && i == spec_find_name(self@, provider@),
                None => spec_find_name(self@, provider@) == -1,
            },
    {
        let n = self.entries.len();
        let mut i: usize = 0;
        while i < n
            invariant
                i <= n,
                n == self@.len(),
                n == self.entries@.len(),
                forall|j: int| 0 <= j < i ==> self@[j].name != provider@,
            decreases n - i,
        {
            if str_eq(self.entries[i].0.as_str(), provider) {
                proof {
                    assert(self@[i as int].name == self.entries@[i as int].0@);
                    lemma_find_name_is_first(self@, provider@);
                }
                return Some(i);
            }
            i = i + 1;
        }
        proof {
            lemma_find_name_is_first(self@, provider@);
        }
        None
    }

    /// Stores the credential under the provider's name, replacing any
    /// credential already stored there.
    pub fn save_config(&mut self, provider: &str, config: &ProviderConfig)
        requires
            old(self).wf(),
        ensures
            final(self).wf(),
            final(self)@ == spec_save(
                old(self)@,
                spec_entry_of(provider@, config@.api_key, config@.base_url),
            ),
            spec_lookup(final(self)@, provider@) == Some(
                spec_entry_of(provider@, config@.api_key, config@.base_url),
            ),
    {
        proof {
            lemma_lookup_after_save(
                old(self)@,
                spec_entry_of(provider@, config@.api_key, config@.base_url),
            );
        }
        let ghost entry = spec_entry_of(provider@, config@.api_key, config@.base_url);
        let name = chars_to_string(&str_to_chars(provider));
        match self.find_index(provider) {
            Some(i) => {
                proof {
                    lemma_find_name_is_first(self@, provider@);
                }
                self.entries.set(i, (name, config.duplicate()));
                proof {
                    assert(self@ =~= spec_save(old(self)@, entry));
                }
            },
            None => {
                self.entries.push((name, config.duplicate()));
                proof {
                    assert(self@ =~= spec_save(old(self)@, entry));
                }
            },
        }
        proof {
            lemma_find_name_is_first(old(self)@, provider@);
            let es = self@;
            assert forall|i: int, j: int| 0 <= i < j < es.len() implies es[i].name != es[j].name by {
                if spec_find_name(old(self)@, provider@) == -1 {
                    if j < old(self)@.len() {
                    } else {
                        assert(es[j].name == provider@);
                    }
                }
            };
        }
    }

    /// The credential stored under the provider's name, or a "not found"
    /// error when there is none.
    pub fn get_config(&self, provider: &str) -> (r: Result<ProviderConfig, StoreError>)
        ensures
            match r {
                Ok(c) => spec_lookup(self@, provider@) matches Some(e) && e.api_key == c@.api_key
                    && e.base_url == c@.base_url,
                Err(e) => spec_lookup(self@, provider@) is None && e is NotFound,
            },
    {
        match self.find_index(provider) {
            Some(i) => Ok(self.entries[i].1.duplicate()),
            None => Err(StoreError::NotFound),
        }
    }

    /// Removes the credential stored under the provider's name; removing an
    /// absent credential is a silent no-op.
    pub fn delete_config(&mut self, provider: &str)
        requires
            old(self).wf(),
        ensures
            final(self).wf(),
            final(self)@ == spec_delete(old(self)@, provider@),
            spec_lookup(final(self)@, provider@) is None,
    {
        match self.find_index(provider) {
            Some(i) => {
                self.entries.remove(i);
                proof {
                    assert(self@ =~= old(self)@.remove(spec_find_name(old(self)@, provider@)));
                }
            },
            None => {},
        }
        proof {
            lemma_find_name_is_first(old(self)@, provider@);
            let es = self@;
            assert forall|i: int, j: int| 0 <= i < j < es.len() implies es[i].name != es[j].name by {
                let d = spec_find_name(old(self)@, provider@);
                if d != -1 {
                    assert(es[i] == if i < d {
                        old(self)@[i]
                    } else {
                        old(self)@[i + 1]
                    });
                    assert(es[j] == if j < d {
                        old(self)@[j]
                    } else {
                        old(self)@[j + 1]
                    });
                }
            };
            lemma_find_name_is_first(es, provider@);
            if spec_find_name(es, provider@) >= 0 {
                let k = spec_find_name(es, provider@);
                let d = spec_find_name(old(self)@, provider@);
                if d == -1 {
                } else {
                    assert(es[k] == if k < d {
                        old(self)@[k]
                    } else {
                        old(self)@[k + 1]
                    });
                }
            }
        }
    }

    /// Every stored provider name, in storage order.
    pub fn list_all_providers(&self) -> (r: Vec<String>)
        ensures
            r@.len() == self@.len(),
            forall|i: int| 0 <= i < r@.len() ==> r@[i]@ == self@[i].name,
    {
        let n = self.entries.len();
        let mut out: Vec<String> = Vec::new();
        let mut i: usize = 0;
        while i < n
            invariant
                i <= n,
                n == self@.len(),
                n == self.entries@.len(),
                out@.len() == i,
                forall|j: int| 0 <= j < i ==> out@[j]@ == self@[j].name,
            decreases n - i,
        {
            out.push(self.entries[i].0.clone());
            i = i + 1;
        }
        out
    }

    /// The credential file's plaintext for this store's contents.
    pub fn render_cred_map(&self) -> (r: Vec<char>)
        ensures
            r@ == spec_cred_map_json(self@),
    {
        let n = self.entries.len();
        let mut out: Vec<char> = Vec::new();
        out.push('{');
        let mut i: usize = 0;
        while i < n
            invariant
                i <= n,
                n == self@.len(),
                n == self.entries@.len(),
                i == 0 ==> out@ == seq!['{'],
                i > 0 ==> out@ == seq!['{'] + spec_cred_entries_json(self@.take(i as int)),
            decreases n - i,
        {
            if i > 0 {
                out.push(',');
            }
            let pair = &self.entries[i];
            push_cred_entry(&mut out, &pair.0, &pair.1.api_key, &pair.1.base_url);
            proof {
                let entry = self@[i as int];
                assert(entry == spec_entry_of(pair.0@, pair.1.api_key@, opt_str_view(
                    pair.1.base_url,
                )));
                lemma_cred_entries_snoc(self@.take(i as int), entry);
                assert(self@.take(i as int).push(entry) =~= self@.take(i + 1));
                if i > 0 {
                    assert(spec_cred_entries_json(seq![entry]) =~= spec_cred_entry_json(entry));
                }
                assert(out@ =~= seq!['{'] + spec_cred_entries_json(self@.take(i + 1)));
            }
            i = i + 1;
        }
        out.push('}');
        proof {
            assert(self@.take(n as int) =~= self@);
            if n == 0 {
                assert(spec_cred_entries_json(self@) =~= Seq::<char>::empty());
            }
            assert(out@ =~= spec_cred_map_json(self@));
        }
        out
    }

    /// The `config_update` envelope for this store's contents, as pushed to
    /// the child.
    pub fn render_config_update(&self) -> (r: Vec<char>)
        ensures
            r@ == spec_config_update_json(self@),
    {
        let n = self.entries.len();
        let mut out: Vec<char> = Vec::new();
        crate::json::push_str_chars(&mut out, "{\"type\":\"config_update\",\"configs\":{");
        let ghost head: Seq<char> = "{\"type\":\"config_update\",\"configs\":{"@;
        let mut i: usize = 0;
        while i < n
            invariant
                i <= n,
                n == self@.len(),
                n == self.entries@.len(),
                i == 0 ==> out@ == head,
                i > 0 ==> out@ == head + spec_push_entries_json(self@.take(i as int)),
                head == "{\"type\":\"config_update\",\"configs\":{"@,
            decreases n - i,
        {
            if i > 0 {
                out.push(',');
            }
            let pair = &self.entries[i];
            push_push_entry(&mut out, &pair.0, &pair.1.api_key, &pair.1.base_url);
            proof {
                let entry = self@[i as int];
                assert(entry == spec_entry_of(pair.0@, pair.1.api_key@, opt_str_view(
                    pair.1.base_url,
                )));
                lemma_push_entries_snoc(self@.take(i as int), entry);
                assert(self@.take(i as int).push(entry) =~= self@.take(i + 1));
                assert(out@ =~= head + spec_push_entries_json(self@.take(i + 1)));
            }
            i = i + 1;
        }
        crate::json::push_str_chars(&mut out, "}}");
        proof {
            assert(self@.take(n as int) =~= self@);
            if n == 0 {
                assert(spec_push_entries_json(self@) =~= Seq::<char>::empty());
            }
            assert(out@ =~= spec_config_update_json(self@));
        }
        out
    }

    /// Seals this store's contents into the credential file's form: the
    /// JSON mapping, sealed under the key and the fixed nonce, as base64
    /// text. Sealing is owed whenever the plaintext fits the cipher's
    /// plaintext cap.
    pub fn to_encrypted_blob(&self, key: &Vec<u8>) -> (r: Result<Vec<u8>, StoreError>)
        requires
            key@.len() == 32,
        ensures
            r matches Ok(b) ==> b@ == base64_of(
                gcm_seal_of(
                    key@,
                    spec_fixed_nonce(),
                    vstd::utf8::encode_utf8(spec_cred_map_json(self@)),
                ),
            ),
            r matches Ok(b) ==> b@.len() > 0,
            (r is Ok) == (vstd::utf8::encode_utf8(spec_cred_map_json(self@)).len()
                <= 0x1000000000),
            r matches Err(e) ==> e is EncryptFailed,
    {
        let json_chars = self.render_cred_map();
        let text = chars_to_string(&json_chars);
        let plaintext = text.as_str().as_bytes_vec();
        let nonce = fixed_nonce();
        match gcm_encrypt(key, &nonce, &plaintext) {
            Some(ct) => Ok(b64_encode(&ct)),
            None => Err(StoreError::EncryptFailed),
        }
    }

    /// Rebuilds a store from parsed credential-file members, refusing a
    /// mapping that names one provider twice; a duplicate-free mapping is
    /// always accepted.
    fn from_pairs(pairs: &Vec<crate::json::CredPair>) -> (r: Option<CredentialStore>)
        ensures
            r matches Some(st) ==> st.wf() && st@ == cred_pairs_view(pairs@),
            (forall|i: int, j: int|
                0 <= i < j < cred_pairs_view(pairs@).len() ==> #[trigger] cred_pairs_view(
                    pairs@,
                )[i].name != #[trigger] cred_pairs_view(pairs@)[j].name) ==> r is Some,
    {
        let n = pairs.len();
        let mut st = CredentialStore::new();
        let mut i: usize = 0;
        proof {
            assert(cred_pairs_view(pairs@.take(0)) =~= Seq::<CredEntry>::empty());
        }
        while i < n
            invariant
                i <= n,
                n == pairs@.len(),
                st.wf(),
                st@ == cred_pairs_view(pairs@.take(i as int)),
            decreases n - i,
        {
            let p = &pairs[i];
            let name_s = chars_to_string(&p.name);
            if let Some(ix) = st.find_index(name_s.as_str()) {
                proof {
                    lemma_find_name_is_first(st@, name_s@);
                    assert(st@[ix as int] == cred_pairs_view(pairs@.take(i as int))[ix as int]);
                    assert(cred_pairs_view(pairs@.take(i as int))[ix as int] == cred_pairs_view(
                        pairs@,
                    )[ix as int]) by {
                        assert(pairs@.take(i as int)[ix as int] == pairs@[ix as int]);
                    }
                    assert(cred_pairs_view(pairs@)[ix as int].name == cred_pairs_view(
                        pairs@,
                    )[i as int].name);
                }
                return None;
            }
            proof {
                lemma_find_name_is_first(st@, p.name@);
            }
            let config = ProviderConfig {
                api_key: chars_to_string(&p.api_key),
                base_url: match &p.base_url {
                    Some(u) => Some(chars_to_string(u)),
                    None => None,
                },
            };
            st.save_config(name_s.as_str(), &config);
            proof {
                assert(st@ =~= cred_pairs_view(pairs@.take(i + 1)));
            }
            i = i + 1;
        }
        proof {
            assert(pairs@.take(n as int) =~= pairs@);
        }
        Some(st)
    }

    /// Opens the credential file's contents. An empty blob is an empty
    /// store; any success is pinned to the sealed form of exactly the
    /// returned store; a blob sealed from duplicate-free entries under this
    /// key opens as exactly those entries; and each failure names its
    /// stage: not canonical base64, not an authentic seal, not UTF-8 text,
    /// or not a duplicate-free credential mapping.
    pub fn from_encrypted_blob(blob: &Vec<u8>, key: &Vec<u8>) -> (r: Result<
        CredentialStore,
        StoreError,
    >)
        requires
            key@.len() == 32,
        ensures
            r matches Ok(st) ==> st.wf() && (blob@.len() == 0 ==> st@ == Seq::<
                CredEntry,
            >::empty()) && (blob@.len() > 0 ==> blob@ == base64_of(
                gcm_seal_of(
                    key@,
                    spec_fixed_nonce(),
                    vstd::utf8::encode_utf8(spec_cred_map_json(st@)),
                ),
            )),
            blob@.len() == 0 ==> r is Ok,
            r matches Err(e) ==> (e is DecodeFailed || e is DecryptFailed || e is InvalidUtf8
                || e is ParseFailed),
            (blob@.len() > 0 && (forall|d: Seq<u8>| blob@ != base64_of(d))) ==> (r matches Err(e)
                && e is DecodeFailed),
            forall|d: Seq<u8>|
                #![trigger base64_of(d)]
                (blob@.len() > 0 && blob@ == base64_of(d) && (forall|p: Seq<u8>|
                    d != gcm_seal_of(key@, spec_fixed_nonce(), p))) ==> (r matches Err(e)
                    && e is DecryptFailed),
            forall|p: Seq<u8>|
                #![trigger gcm_seal_of(key@, spec_fixed_nonce(), p)]
                (blob@.len() > 0 && p.len() <= 0x1000000000 && blob@ == base64_of(
                    gcm_seal_of(key@, spec_fixed_nonce(), p),
                ) && !vstd::utf8::valid_utf8(p)) ==> (r matches Err(e) && e is InvalidUtf8),
            forall|es: Seq<CredEntry>|
                #![trigger spec_cred_map_json(es)]
                (blob@.len() > 0 && blob@ == base64_of(
                    gcm_seal_of(
                        key@,
                        spec_fixed_nonce(),
                        vstd::utf8::encode_utf8(spec_cred_map_json(es)),
                    ),
                ) && vstd::utf8::encode_utf8(spec_cred_map_json(es)).len() <= 0x1000000000 && (
                forall|i: int, j: int|
                    0 <= i < j < es.len() ==> #[trigger] es[i].name != #[trigger] es[j].name))
                    ==> (r matches Ok(st) && st@ == es),
    {
        if blob.len() == 0 {
            return Ok(CredentialStore::new());
        }
        let ct = match b64_decode(blob) {
            Some(x) => x,
            None => {
                return Err(StoreError::DecodeFailed);
            },
        };
        let nonce = fixed_nonce();
        let pt = match gcm_decrypt(key, &nonce, &ct) {
            Some(x) => x,
            None => {
                return Err(StoreError::DecryptFailed);
            },
        };
        let ghost pt_view: Seq<u8> = pt@;
        let text = match string_from_utf8(pt) {
            Some(s) => s,
            None => {
                proof {
                    broadcast use vstd::utf8::encode_utf8_valid_utf8;

                    assert forall|es: Seq<CredEntry>|
                        blob@ == base64_of(
                            gcm_seal_of(
                                key@,
                                spec_fixed_nonce(),
                                vstd::utf8::encode_utf8(#[trigger] spec_cred_map_json(es)),
                            ),
                        ) implies pt_view != vstd::utf8::encode_utf8(spec_cred_map_json(es)) by {
                        assert(vstd::utf8::valid_utf8(
                            vstd::utf8::encode_utf8(spec_cred_map_json(es)),
                        ));
                    };
                }
                return Err(StoreError::InvalidUtf8);
            },
        };
        let chars = str_to_chars(text.as_str());
        proof {
            assert forall|es: Seq<CredEntry>|
                pt_view == vstd::utf8::encode_utf8(
                    #[trigger] spec_cred_map_json(es),
                ) implies chars@ == spec_cred_map_json(es) by {
                vstd::utf8::encode_utf8_decode_utf8(text@);
                vstd::utf8::encode_utf8_decode_utf8(spec_cred_map_json(es));
            };
        }
        let pairs = match parse_cred_map(&chars) {
            Some(p) => p,
            None => {
                return Err(StoreError::ParseFailed);
            },
        };
        proof {
            assert forall|es: Seq<CredEntry>|
                chars@ == #[trigger] spec_cred_map_json(es) implies cred_pairs_view(pairs@)
                == es by {
                lemma_cred_map_json_injective(cred_pairs_view(pairs@), es);
            };
        }
        let st = match CredentialStore::from_pairs(&pairs) {
            Some(s) => s,
            None => {
                return Err(StoreError::ParseFailed);
            },
        };
        Ok(st)
    }

    /// Every stored name and credential, in storage order.
    pub fn get_all_configs(&self) -> (r: Vec<(String, ProviderConfig)>)
        ensures
            r@.len() == self@.len(),
            forall|i: int|
                0 <= i < r@.len() ==> r@[i].0@ == self@[i].name && r@[i].1@.api_key
                    == self@[i].api_key && r@[i].1@.base_url == self@[i].base_url,
    {
        let n = self.entries.len();
        let mut out: Vec<(String, ProviderConfig)> = Vec::new();
        let mut i: usize = 0;
        while i < n
            invariant
                i <= n,
                n == self@.len(),
                n == self.entries@.len(),
                out@.len() == i,
                forall|j: int|
                    0 <= j < i ==> out@[j].0@ == self@[j].name && out@[j].1@.api_key
                        == self@[j].api_key && out@[j].1@.base_url == self@[j].base_url,
            decreases n - i,
        {
            let pair = &self.entries[i];
            out.push((pair.0.clone(), pair.1.duplicate()));
            i = i + 1;
        }
        out
    }
}

} // verus!