use mind_flayer::credentials::{CredentialStore, ProviderConfig, StoreError};
use mind_flayer::crypto::{b64_encode, derive_encryption_key, fixed_nonce, gcm_encrypt};

fn key() -> Vec<u8> {
    derive_encryption_key("test-machine")
}

#[test]
fn test_save_and_get_config() {
    let mut store = CredentialStore::new();

    let provider = "test_provider";
    let config = ProviderConfig {
        api_key: "test_key_123".to_string(),
        base_url: Some("https://api.test.com".to_string()),
    };

    store.save_config(provider, &config);

    let retrieved = store.get_config(provider).unwrap();
    assert_eq!(retrieved.api_key, config.api_key);
    assert_eq!(retrieved.base_url, config.base_url);
}

#[test]
fn test_multiple_providers() {
    let mut store = CredentialStore::new();

    let config1 = ProviderConfig {
        api_key: "key1".to_string(),
        base_url: None,
    };
    let config2 = ProviderConfig {
        api_key: "key2".to_string(),
        base_url: Some("https://api.example.com".to_string()),
    };

    store.save_config("provider1", &config1);
    store.save_config("provider2", &config2);

    let all_configs = store.get_all_configs();
    assert_eq!(all_configs.len(), 2);

    store.delete_config("provider1");
    let all_configs = store.get_all_configs();
    assert_eq!(all_configs.len(), 1);
}

#[test]
fn get_after_delete_reports_not_found_and_list_excludes() {
    let mut store = CredentialStore::new();
    let config = ProviderConfig {
        api_key: "k1".to_string(),
        base_url: None,
    };
    store.save_config("p1", &config);
    store.delete_config("p1");
    assert!(matches!(store.get_config("p1"), Err(StoreError::NotFound)));
    assert!(!store.list_all_providers().contains(&"p1".to_string()));
}

#[test]
fn delete_of_absent_provider_is_silent() {
    let mut store = CredentialStore::new();
    store.delete_config("never-saved");
    assert_eq!(store.len(), 0);
}

#[test]
fn save_replaces_existing_credential() {
    let mut store = CredentialStore::new();
    let first = ProviderConfig {
        api_key: "old".to_string(),
        base_url: None,
    };
    let second = ProviderConfig {
        api_key: "new".to_string(),
        base_url: Some("https://b".to_string()),
    };
    store.save_config("p1", &first);
    store.save_config("p1", &second);
    assert_eq!(store.len(), 1);
    let got = store.get_config("p1").unwrap();
    assert_eq!(got.api_key, "new");
    assert_eq!(got.base_url, Some("https://b".to_string()));
}

#[test]
fn blob_round_trip_preserves_all_credentials() {
    let mut store = CredentialStore::new();
    store.save_config(
        "p1",
        &ProviderConfig {
            api_key: "k1".to_string(),
            base_url: None,
        },
    );
    store.save_config(
        "p2",
        &ProviderConfig {
            api_key: "k2".to_string(),
            base_url: Some("https://api.example.com/v1".to_string()),
        },
    );
    let key = key();
    let blob = store.to_encrypted_blob(&key).unwrap();
    let loaded = CredentialStore::from_encrypted_blob(&blob, &key).unwrap();
    assert_eq!(loaded.len(), 2);
    let p1 = loaded.get_config("p1").unwrap();
    assert_eq!(p1.api_key, "k1");
    assert_eq!(p1.base_url, None);
    let p2 = loaded.get_config("p2").unwrap();
    assert_eq!(p2.api_key, "k2");
    assert_eq!(p2.base_url, Some("https://api.example.com/v1".to_string()));
}

#[test]
fn blob_round_trip_preserves_escaped_characters() {
    let mut store = CredentialStore::new();
    store.save_config(
        "quo\"ted\\provider",
        &ProviderConfig {
            api_key: "line\nbreak\tand \"quotes\"".to_string(),
            base_url: Some("https://h\u{e9}llo".to_string()),
        },
    );
    let key = key();
    let blob = store.to_encrypted_blob(&key).unwrap();
    let loaded = CredentialStore::from_encrypted_blob(&blob, &key).unwrap();
    let got = loaded.get_config("quo\"ted\\provider").unwrap();
    assert_eq!(got.api_key, "line\nbreak\tand \"quotes\"");
    assert_eq!(got.base_url, Some("https://h\u{e9}llo".to_string()));
}

#[test]
fn empty_blob_opens_as_empty_store() {
    let key = key();
    let loaded = CredentialStore::from_encrypted_blob(&Vec::new(), &key).unwrap();
    assert_eq!(loaded.len(), 0);
}

#[test]
fn empty_store_round_trips() {
    let key = key();
    let store = CredentialStore::new();
    let blob = store.to_encrypted_blob(&key).unwrap();
    let loaded = CredentialStore::from_encrypted_blob(&blob, &key).unwrap();
    assert_eq!(loaded.len(), 0);
}

#[test]
fn non_base64_blob_reports_decode_error() {
    let key = key();
    let blob: Vec<u8> = b"!!! not base64 !!!".to_vec();
    assert!(matches!(
        CredentialStore::from_encrypted_blob(&blob, &key),
        Err(StoreError::DecodeFailed)
    ));
}

#[test]
fn unauthenticated_blob_reports_decrypt_error() {
    let key = key();
    let blob = b64_encode(&vec![0u8; 64]);
    assert!(matches!(
        CredentialStore::from_encrypted_blob(&blob, &key),
        Err(StoreError::DecryptFailed)
    ));
}

#[test]
fn wrong_key_reports_decrypt_error() {
    let mut store = CredentialStore::new();
    store.save_config(
        "p1",
        &ProviderConfig {
            api_key: "k1".to_string(),
            base_url: None,
        },
    );
    let blob = store.to_encrypted_blob(&key()).unwrap();
    let other_key = derive_encryption_key("another-machine");
    assert!(matches!(
        CredentialStore::from_encrypted_blob(&blob, &other_key),
        Err(StoreError::DecryptFailed)
    ));
}

#[test]
fn non_utf8_plaintext_reports_utf8_error() {
    let key = key();
    let nonce = fixed_nonce();
    let sealed = gcm_encrypt(&key, &nonce, &vec![0xff, 0xfe, 0x00]).unwrap();
    let blob = b64_encode(&sealed);
    assert!(matches!(
        CredentialStore::from_encrypted_blob(&blob, &key),
        Err(StoreError::InvalidUtf8)
    ));
}

#[test]
fn non_mapping_plaintext_reports_parse_error() {
    let key = key();
    let nonce = fixed_nonce();
    let sealed = gcm_encrypt(&key, &nonce, &b"not json at all".to_vec()).unwrap();
    let blob = b64_encode(&sealed);
    assert!(matches!(
        CredentialStore::from_encrypted_blob(&blob, &key),
        Err(StoreError::ParseFailed)
    ));
}

#[test]
fn handwritten_canonical_mapping_opens() {
    let key = key();
    let nonce = fixed_nonce();
    let text = "{\"p\":{\"apiKey\":\"k\"},\"q\":{\"apiKey\":\"k2\",\"baseUrl\":\"https://u\"}}";
    let sealed = gcm_encrypt(&key, &nonce, &text.as_bytes().to_vec()).unwrap();
    let blob = b64_encode(&sealed);
    let loaded = CredentialStore::from_encrypted_blob(&blob, &key).unwrap();
    assert_eq!(loaded.len(), 2);
    assert_eq!(loaded.get_config("p").unwrap().api_key, "k");
    assert_eq!(
        loaded.get_config("q").unwrap().base_url,
        Some("https://u".to_string())
    );
}

#[test]
fn duplicate_provider_names_are_treated_as_corruption() {
    let key = key();
    let nonce = fixed_nonce();
    let text = "{\"p\":{\"apiKey\":\"a\"},\"p\":{\"apiKey\":\"b\"}}";
    let sealed = gcm_encrypt(&key, &nonce, &text.as_bytes().to_vec()).unwrap();
    let blob = b64_encode(&sealed);
    assert!(matches!(
        CredentialStore::from_encrypted_blob(&blob, &key),
        Err(StoreError::ParseFailed)
    ));
}

#[test]
fn mapping_with_stray_whitespace_is_treated_as_corruption() {
    // The credential file is only ever written by this crate, compactly;
    // anything looser is refused rather than guessed at.
    let key = key();
    let nonce = fixed_nonce();
    let text = "{ \"p\": {\"apiKey\": \"k\"} }";
    let sealed = gcm_encrypt(&key, &nonce, &text.as_bytes().to_vec()).unwrap();
    let blob = b64_encode(&sealed);
    assert!(matches!(
        CredentialStore::from_encrypted_blob(&blob, &key),
        Err(StoreError::ParseFailed)
    ));
}

#[test]
fn decrypt_error_message_names_possible_corruption() {
    assert_eq!(
        StoreError::DecryptFailed.message(),
        "Failed to decrypt config, data may be corrupted"
    );
}

#[test]
fn not_found_message_names_the_provider() {
    assert_eq!(
        mind_flayer::credentials::not_found_message("p1"),
        "Provider 'p1' not found"
    );
}

#[test]
fn list_all_providers_keeps_insertion_order() {
    let mut store = CredentialStore::new();
    for name in ["alpha", "beta", "gamma"] {
        store.save_config(
            name,
            &ProviderConfig {
                api_key: "k".to_string(),
                base_url: None,
            },
        );
    }
    assert_eq!(
        store.list_all_providers(),
        vec!["alpha".to_string(), "beta".to_string(), "gamma".to_string()]
    );
}
