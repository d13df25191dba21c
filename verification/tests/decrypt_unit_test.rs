use cookiecloud_sync::decrypt::{
    decrypt, decrypt_fixed_iv, decrypt_legacy, encrypt, evp_bytes_to_key, md5_hex_prefix,
    DecryptError,
};
use serde_json::Value;

fn cookie_data_of(bytes: &[u8]) -> Value {
    let v: Value = serde_json::from_slice(bytes).unwrap();
    v["cookie_data"].clone()
}

fn cookie_data_of_text(text: &str) -> Value {
    let v: Value = serde_json::from_str(text).unwrap();
    v["cookie_data"].clone()
}

#[test]
fn derive_key_length() {
    let key = md5_hex_prefix("test-uuid", "test-password");
    assert_eq!(key.len(), 16);
}

#[test]
fn derive_key_deterministic() {
    let key1 = md5_hex_prefix("test-uuid", "test-password");
    let key2 = md5_hex_prefix("test-uuid", "test-password");
    assert_eq!(key1, key2);
}

#[test]
fn derive_key_differs_by_input() {
    let key1 = md5_hex_prefix("uuid1", "pass1");
    let key2 = md5_hex_prefix("uuid2", "pass2");
    assert_ne!(key1, key2);
}

#[test]
fn evp_bytes_to_key_lengths() {
    let (key, iv) = evp_bytes_to_key(b"password", b"12345678");
    assert_eq!(key.len(), 32);
    assert_eq!(iv.len(), 16);
}

#[test]
fn evp_bytes_to_key_deterministic() {
    let (k1, i1) = evp_bytes_to_key(b"password", b"12345678");
    let (k2, i2) = evp_bytes_to_key(b"password", b"12345678");
    assert_eq!(k1, k2);
    assert_eq!(i1, i2);
}

#[test]
fn evp_bytes_to_key_differs_by_salt() {
    let (k1, _) = evp_bytes_to_key(b"password", b"aaaaaaaa");
    let (k2, _) = evp_bytes_to_key(b"password", b"bbbbbbbb");
    assert_ne!(k1, k2);
}

#[test]
fn decrypt_fixed_iv_invalid_ciphertext() {
    let result = decrypt_fixed_iv(b"too short", &[0u8; 16]);
    assert!(result.is_err());
}

#[test]
fn decrypt_fixed_iv_invalid_key() {
    let ct = vec![0u8; 32];
    let result = decrypt_fixed_iv(&ct, &[0u8; 16]);
    assert!(result.is_err());
}

#[test]
fn decrypt_legacy_short_data() {
    let passphrase = md5_hex_prefix("uuid", "pwd");
    let result = decrypt_legacy(b"too short", &passphrase);
    assert!(result.is_err());
    match result {
        Err(DecryptError::InvalidCiphertext(msg)) => assert!(msg.contains("short")),
        _ => panic!("expected InvalidCiphertext error"),
    }
}

#[test]
fn decrypt_unknown_crypto_type() {
    let result = decrypt("uuid", "dGVzdA==", "password", Some("foobar"));
    assert!(result.is_err());
    assert!(matches!(
        result,
        Err(DecryptError::UnsupportedCryptoType(_))
    ));
}

#[test]
fn decrypt_defaults_to_fixed_iv() {
    let result = decrypt("uuid", "", "password", None);
    assert!(result.is_err());
    assert!(!matches!(
        result,
        Err(DecryptError::UnsupportedCryptoType(_))
    ));
}

#[test]
fn roundtrip_fixed_iv() {
    let data = r#"{"cookie_data":{"example.com":[{"domain":".example.com","name":"session","value":"abc123","path":"/","secure":true,"httpOnly":true,"sameSite":"Lax","expiration_date":1777777777.0}]}}"#;
    let ct = encrypt("my-uuid", data, "my-password", Some("aes-128-cbc-fixed")).unwrap();
    let decrypted = decrypt("my-uuid", &ct, "my-password", Some("aes-128-cbc-fixed")).unwrap();
    assert_eq!(cookie_data_of(&decrypted), cookie_data_of_text(data));
}

#[test]
fn roundtrip_legacy() {
    let data = r#"{"cookie_data":{"example.com":[{"domain":".example.com","name":"session","value":"abc123","path":"/","secure":true,"httpOnly":true,"sameSite":"Lax","expiration_date":1777777777.0}]}}"#;
    let ct = encrypt("my-uuid", data, "my-password", Some("legacy")).unwrap();
    let decrypted = decrypt("my-uuid", &ct, "my-password", Some("legacy")).unwrap();
    assert_eq!(cookie_data_of(&decrypted), cookie_data_of_text(data));
}

#[test]
fn roundtrip_fixed_iv_default() {
    let data =
        r#"{"cookie_data":{"test.dev":[{"domain":".test.dev","name":"token","value":"xyz"}]}}"#;
    let ct = encrypt("uuid-1", data, "pass-1", None).unwrap();
    let decrypted = decrypt("uuid-1", &ct, "pass-1", None).unwrap();
    assert_eq!(cookie_data_of(&decrypted), cookie_data_of_text(data));
}

#[test]
fn known_answer_fixed_iv() {
    let uuid = "test-uuid-kat";
    let password = "test-password-kat";
    let expected_plaintext =
        r#"{"cookie_data":{"kat.dev":[{"domain":".kat.dev","name":"test","value":"hello"}]}}"#;
    let ct = "eSRyCMQwPxZqEfBnFmjhWNzXcYitTVhlv0rgNRE+WdjsHSD+IYUjA2fBgj0+4rIBaludMdjiTI/sGpZzUItIl+4E7S+sXWK0reQoMihlcsFQ8O+dOLN1NOA4RkF4iQg4";
    let decrypted = decrypt(uuid, ct, password, Some("aes-128-cbc-fixed")).unwrap();
    assert_eq!(cookie_data_of(&decrypted), cookie_data_of_text(expected_plaintext));
}

#[test]
fn md5_hex_prefix_matches_js() {
    let key = md5_hex_prefix("test-uuid", "test-password");
    let hex_str = std::str::from_utf8(&key).unwrap();
    assert_eq!(hex_str.len(), 16);
    for c in hex_str.chars() {
        assert!(c.is_ascii_hexdigit());
    }
}

#[test]
fn encrypt_decrypt_roundtrip_multi_domain() {
    let data = r#"{"cookie_data":{"a.com":[{"domain":"a.com","name":"x","value":"1"}],"b.com":[{"domain":"b.com","name":"y","value":"2"}]}}"#;
    for ct in ["aes-128-cbc-fixed", "legacy"] {
        let ciphertext = encrypt("uuid", data, "pwd", Some(ct)).unwrap();
        let decrypted = decrypt("uuid", &ciphertext, "pwd", Some(ct)).unwrap();
        let cookies = cookie_data_of(&decrypted);
        assert_eq!(cookies.as_object().unwrap().len(), 2);
        assert_eq!(cookies["a.com"][0]["value"], "1");
        assert_eq!(cookies["b.com"][0]["value"], "2");
    }
}
