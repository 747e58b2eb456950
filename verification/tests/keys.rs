use folder_lock::crypto;

fn hex(bytes: &[u8]) -> String {
    bytes.iter().map(|b| format!("{:02x}", b)).collect()
}

#[test]
fn key_is_deterministic_for_same_password_and_salt() {
    let salt = [1u8; 16];
    let k1 = crypto::derive_key(b"pw", &salt).unwrap();
    let k2 = crypto::derive_key(b"pw", &salt).unwrap();
    assert_eq!(k1, k2, "same password+salt must derive the same key");

    let k3 = crypto::derive_key(b"PW", &salt).unwrap();
    assert_ne!(k1, k3, "different password must derive a different key");
}

#[test]
fn a_key_is_argon2id_with_64_mib_and_three_rounds() {
    let key = crypto::derive_key(b"pw", &[1u8; 16]).unwrap();
    assert_eq!(
        hex(&key),
        "6cc8330b81cc4258e0806d00d18523028996d710cd2bebfc703ab616a18ea0f6"
    );
    assert_ne!(key, crypto::derive_key(b"pw", &[2u8; 16]).unwrap());
    assert!(crypto::derive_key(b"", &[1u8; 16]).is_ok());
}

#[test]
fn a_blob_is_a_nonce_and_an_aes_256_gcm_ciphertext() {
    let key = [0u8; 32];
    let empty = crypto::encrypt_with_nonce(&key, &[0u8; 12], b"").unwrap();
    assert_eq!(hex(&empty[..12]), "000000000000000000000000");
    assert_eq!(hex(&empty[12..]), "530f8afbc74536b9a963b4f1c4cb738b");
    let block = crypto::encrypt_with_nonce(&key, &[0u8; 12], &[0u8; 16]).unwrap();
    assert_eq!(
        hex(&block[12..]),
        "cea7403d4d606b6e074ec5d3baf39d18d0d1c8a799996bf0265b98b5d48ab919"
    );
    let nonce = [0, 1, 2, 3, 4, 5, 6, 7, 8, 9, 10, 11];
    let hello = crypto::encrypt_with_nonce(&[7u8; 32], &nonce, b"hello").unwrap();
    assert_eq!(hello[..12], nonce);
    assert_eq!(hex(&hello[12..]), "70e4851c72dbdca538584394eb001aa00e5b684aac");
}

#[test]
fn what_is_encrypted_is_decrypted() {
    let key = [3u8; 32];
    for plaintext in [&b""[..], b"x", b"some plaintext", &[0u8; 5000]] {
        let blob = crypto::encrypt(&key, plaintext).unwrap();
        assert_eq!(blob.len(), plaintext.len() + crypto::NONCE_LEN + crypto::TAG_LEN);
        assert_eq!(crypto::decrypt(&key, &blob).unwrap(), plaintext);
    }
}

#[test]
fn nonces_and_salts_are_random() {
    let key = [3u8; 32];
    let a = crypto::encrypt(&key, b"same").unwrap();
    let b = crypto::encrypt(&key, b"same").unwrap();
    assert_ne!(a[..12], b[..12]);
    assert_ne!(a, b);
    let salts = [crypto::random_salt(), crypto::random_salt()];
    assert_ne!(salts[0], salts[1]);
    assert_ne!(salts[0], [0u8; 16]);
}

#[test]
fn a_wrong_key_or_a_changed_byte_is_refused() {
    let key = [3u8; 32];
    let blob = crypto::encrypt(&key, b"some plaintext").unwrap();
    let refused = Err("解密失败：密码错误或数据已损坏".to_string());
    assert_eq!(crypto::decrypt(&[4u8; 32], &blob), refused);
    for i in 0..blob.len() {
        let mut changed = blob.clone();
        changed[i] ^= 0x80;
        assert_eq!(crypto::decrypt(&key, &changed), refused);
    }
    assert_eq!(crypto::decrypt(&key, &blob[..13]), refused);
}

#[test]
fn data_too_short_for_a_blob_is_refused() {
    for n in 0..13 {
        let data = vec![0u8; n];
        assert_eq!(crypto::decrypt(&[0u8; 32], &data), Err("密文数据太短".to_string()));
    }
}

#[test]
fn a_zeroed_key_is_all_zeros() {
    let mut key = [5u8; 32];
    crypto::zero_key(&mut key);
    assert_eq!(key, [0u8; 32]);
}

#[test]
fn passwords_match_only_if_they_are_equal() {
    assert!(crypto::passwords_match(b"", b""));
    assert!(crypto::passwords_match(b"secret", b"secret"));
    assert!(!crypto::passwords_match(b"secret", b"secreT"));
    assert!(!crypto::passwords_match(b"secret", b"secrets"));
    assert!(!crypto::passwords_match(b"ab", b"ba"));
    assert!(!crypto::passwords_match(b"a", b""));
}

#[test]
fn only_what_encrypting_makes_opens() {
    let key = [7u8; 32];
    let data = crypto::encrypt(&key, b"some content").unwrap();
    let plain = crypto::decrypt(&key, &data).unwrap();
    let mut nonce = [0u8; 12];
    nonce.copy_from_slice(&data[..12]);
    assert_eq!(crypto::encrypt_with_nonce(&key, &nonce, &plain).unwrap(), data);
    for i in 0..data.len() {
        let mut changed = data.clone();
        changed[i] ^= 0x80;
        assert_eq!(
            crypto::decrypt(&key, &changed),
            Err("解密失败：密码错误或数据已损坏".to_string())
        );
    }
}
