use aes_gcm::aead::{Aead, KeyInit};
use aes_gcm::{Aes256Gcm, Nonce};
use base64::engine::general_purpose;
use base64::Engine;
use mind_flayer::crypto::{
    b64_decode, b64_encode, derive_encryption_key, fixed_nonce, gcm_decrypt, gcm_encrypt,
};
use mind_flayer::text::{chars_to_string, str_to_chars, string_from_utf8, u128_to_decimal};
use sha2::{Digest, Sha256};

#[test]
fn derived_key_is_the_tagged_digest_of_the_device_name() {
    let derived = derive_encryption_key("some-machine");
    let direct = Sha256::digest(b"mind-flayer-v1some-machine").to_vec();
    assert_eq!(derived, direct);
    assert_eq!(derived.len(), 32);
}

#[test]
fn base64_wrappers_agree_with_the_engine_and_invert() {
    let data: Vec<u8> = vec![0, 1, 2, 250, 251, 252];
    let encoded = b64_encode(&data);
    assert_eq!(
        encoded,
        general_purpose::STANDARD.encode(&data).into_bytes()
    );
    assert_eq!(b64_decode(&encoded), Some(data));
    assert_eq!(b64_decode(&b"%%%".to_vec()), None);
}

#[test]
fn gcm_wrappers_agree_with_the_cipher_and_invert() {
    let key = derive_encryption_key("gcm-test");
    let nonce = fixed_nonce();
    let plaintext: Vec<u8> = b"payload bytes".to_vec();
    let sealed = gcm_encrypt(&key, &nonce, &plaintext).unwrap();

    let cipher = Aes256Gcm::new_from_slice(&key).unwrap();
    let direct = cipher
        .encrypt(Nonce::from_slice(&nonce), plaintext.as_slice())
        .unwrap();
    assert_eq!(sealed, direct);

    assert_eq!(gcm_decrypt(&key, &nonce, &sealed), Some(plaintext));

    let mut tampered = sealed.clone();
    tampered[0] ^= 1;
    assert_eq!(gcm_decrypt(&key, &nonce, &tampered), None);
}

#[test]
fn fixed_nonce_spells_the_legacy_tag() {
    assert_eq!(fixed_nonce(), b"mind-flayer!".to_vec());
}

#[test]
fn char_string_round_trips() {
    let chars = str_to_chars("h\u{e9}llo \u{1f600}");
    assert_eq!(chars_to_string(&chars), "h\u{e9}llo \u{1f600}");
}

#[test]
fn utf8_wrapper_accepts_valid_and_rejects_invalid_bytes() {
    assert_eq!(
        string_from_utf8("h\u{e9}llo".as_bytes().to_vec()),
        Some("h\u{e9}llo".to_string())
    );
    assert_eq!(string_from_utf8(vec![0xff, 0xfe]), None);
}

#[test]
fn decimal_rendering_matches_formatting() {
    for n in [0u128, 7, 10, 3737, 65535, 340282366920938463463374607431768211455] {
        let chars = u128_to_decimal(n);
        let text: String = chars.iter().collect();
        assert_eq!(text, format!("{}", n));
    }
}
