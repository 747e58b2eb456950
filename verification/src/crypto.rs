//! Cryptographic primitives: Argon2id key derivation and AES-256-GCM.

use aes_gcm::aead::generic_array::GenericArray;
use aes_gcm::aead::stream::{NewStream, StreamBE32, StreamPrimitive};
use aes_gcm::aead::{Aead, KeyInit};
use aes_gcm::{Aes256Gcm, Nonce};
use argon2::{Algorithm, Argon2, Params, Version};
use rand::RngCore;
use vstd::prelude::*;
use vstd::slice::slice_subrange;
use zeroize::Zeroize;

pub use crate::stream::{decrypt_stream, encrypt_stream};

verus! {

/// 32-byte AES-256 key.
pub type Key = [u8; 32];

/// 16-byte Argon2 salt.
pub type Salt = [u8; 16];

/// Argon2id memory cost in KiB: 64 MiB.
pub const ARGON2_M_COST: u32 = 65536;

/// Argon2id passes over the memory.
pub const ARGON2_T_COST: u32 = 3;

/// Argon2id lanes.
pub const ARGON2_P_COST: u32 = 1;

/// Bytes of the random nonce in front of a one-shot ciphertext.
pub const NONCE_LEN: usize = 12;

/// Bytes of the authentication tag that GCM adds to a plaintext.
pub const TAG_LEN: usize = 16;

/// The longest plaintext that one AES-GCM call encrypts.
pub const PLAINTEXT_MAX: u64 = 0x10_0000_0000;

/// The longest password that Argon2 hashes.
pub const PASSWORD_MAX: u64 = 0xFFFF_FFFF;

// ── what the outside crates compute ──

/// The 32 bytes that Argon2id (version 0x13) derives from a password and a salt
/// under the given memory, time and parallelism costs.
pub uninterp spec fn argon2id(
    m_cost: u32,
    t_cost: u32,
    p_cost: u32,
    password: Seq<u8>,
    salt: Seq<u8>,
) -> Seq<u8>;

/// What AES-256-GCM makes of a plaintext: ciphertext followed by the tag.
pub uninterp spec fn aes256gcm_seal(key: Seq<u8>, nonce: Seq<u8>, plaintext: Seq<u8>) -> Seq<u8>;

/// What AES-256-GCM reads back from a ciphertext, or `None` where the tag does
/// not verify.
pub uninterp spec fn aes256gcm_open(
    key: Seq<u8>,
    nonce: Seq<u8>,
    ciphertext: Seq<u8>,
) -> Option<Seq<u8>>;

/// The error that `aes_gcm` returns; it holds no detail.
#[verifier::external_type_specification]
#[verifier::external_body]
pub struct ExGcmError(aes_gcm::Error);

/// `argon2::Argon2::hash_password_into` with the Argon2id algorithm, version
/// 0x13 and the given costs, over at most 64 MiB of memory. The costs that are
/// admitted here are valid ones, so the call fails only on a password of more
/// than 2^32 - 1 bytes. The error is its `to_string`.
#[verifier::external_body]
fn argon2_hash(m_cost: u32, t_cost: u32, p_cost: u32, password: &[u8], salt: &Salt) -> (r: Result<
    Key,
    String,
>)
    requires
        1 <= p_cost,
        8 * p_cost <= m_cost <= 65536,
        1 <= t_cost,
    ensures
        r is Ok <==> password@.len() <= PASSWORD_MAX,
        r matches Ok(key) ==> key@ == argon2id(m_cost, t_cost, p_cost, password@, salt@),
        r matches Err(e) ==> e@ == "password is too long"@,
{
    let params = Params::new(m_cost, t_cost, p_cost, Some(32)).map_err(|e| e.to_string())?;
    let argon2 = Argon2::new(Algorithm::Argon2id, Version::V0x13, params);
    let mut key = [0u8; 32];
    argon2.hash_password_into(password, salt, &mut key).map_err(|e| e.to_string())?;
    Ok(key)
}

/// `aes_gcm::Aes256Gcm::encrypt`. It refuses a plaintext of more than 2^36 bytes
/// and nothing else. The ciphertext is the plaintext's length plus the tag, and
/// `Aes256Gcm::decrypt` under the same key and nonce gives the plaintext back.
#[verifier::external_body]
fn gcm_encrypt(key: &Key, nonce: &[u8], plaintext: &[u8]) -> (r: Result<Vec<u8>, aes_gcm::Error>)
    requires
        nonce@.len() == NONCE_LEN,
    ensures
        r is Ok <==> plaintext@.len() <= PLAINTEXT_MAX,
        r matches Ok(ct) ==> {
            &&& ct@ == aes256gcm_seal(key@, nonce@, plaintext@)
            &&& ct@.len() == plaintext@.len() + TAG_LEN
            &&& aes256gcm_open(key@, nonce@, ct@) == Some(plaintext@)
        },
{
    Aes256Gcm::new(key.into()).encrypt(Nonce::from_slice(nonce), plaintext)
}

/// `aes_gcm::Aes256Gcm::decrypt`. What it gives back is shorter than the
/// ciphertext by the tag. It computes the tag of the ciphertext anew and opens only
/// where that is the tag at hand, so that encrypting what it gives back makes the
/// very same ciphertext, where that is not too long to encrypt.
///
/// That a ciphertext made under another key, or changed since, has no such tag is not
/// said: it is what makes the cipher secure, and no property of every input.
#[verifier::external_body]
fn gcm_decrypt(key: &Key, nonce: &[u8], ciphertext: &[u8]) -> (r: Result<Vec<u8>, aes_gcm::Error>)
    requires
        nonce@.len() == NONCE_LEN,
    ensures
        r matches Ok(pt) ==> {
            &&& aes256gcm_open(key@, nonce@, ciphertext@) == Some(pt@)
            &&& pt@.len() + TAG_LEN == ciphertext@.len()
            &&& pt@.len() <= PLAINTEXT_MAX ==> ciphertext@ == aes256gcm_seal(
                key@,
                nonce@,
                pt@,
            )
        },
        r is Err ==> aes256gcm_open(key@, nonce@, ciphertext@) is None,
{
    Aes256Gcm::new(key.into()).decrypt(Nonce::from_slice(nonce), ciphertext)
}

/// `to_string` of an `aes_gcm::Error`, which is the same for every such error.
#[verifier::external_body]
fn gcm_error_text(e: &aes_gcm::Error) -> (text: String)
    ensures
        text@ == "aead::Error"@,
{
    e.to_string()
}

/// The nonce that STREAM hands to the cipher for the chunk at a position: the
/// stream's own seven bytes, the position in big endian, and the last-chunk flag.
pub open spec fn stream_nonce(prefix: Seq<u8>, position: u32, last: bool) -> Seq<u8> {
    prefix + seq![
        (position / 0x100_0000) as u8,
        (position / 0x1_0000 % 0x100) as u8,
        (position / 0x100 % 0x100) as u8,
        (position % 0x100) as u8,
        if last { 1u8 } else { 0u8 },
    ]
}

/// `aead::stream::StreamPrimitive::encrypt` on a `StreamBE32` over AES-256-GCM:
/// the chunk is encrypted under the nonce that [`stream_nonce`] describes.
#[verifier::external_body]
pub(crate) fn stream_encrypt(
    key: &Key,
    nonce: &[u8; 7],
    position: u32,
    last: bool,
    chunk: &[u8],
) -> (r: Result<Vec<u8>, aes_gcm::Error>)
    ensures
        r is Ok <==> chunk@.len() <= PLAINTEXT_MAX,
        r matches Ok(ct) ==> {
            let full = stream_nonce(nonce@, position, last);
            &&& ct@ == aes256gcm_seal(key@, full, chunk@)
            &&& ct@.len() == chunk@.len() + TAG_LEN
            &&& aes256gcm_open(key@, full, ct@) == Some(chunk@)
        },
{
    StreamBE32::<Aes256Gcm>::new(GenericArray::from_slice(key), GenericArray::from_slice(nonce))
        .encrypt(position, last, chunk)
}

/// `aead::stream::StreamPrimitive::decrypt` on a `StreamBE32` over AES-256-GCM,
/// under the nonce that [`stream_nonce`] describes. Encrypting what it gives back
/// makes the very same ciphertext, where that is not too long to encrypt. As with
/// [`gcm_decrypt`], nothing is said of a chunk made under another key.
#[verifier::external_body]
pub(crate) fn stream_decrypt(
    key: &Key,
    nonce: &[u8; 7],
    position: u32,
    last: bool,
    chunk: &[u8],
) -> (r: Result<Vec<u8>, aes_gcm::Error>)
    ensures
        r matches Ok(pt) ==> {
            let full = stream_nonce(nonce@, position, last);
            &&& aes256gcm_open(key@, full, chunk@) == Some(pt@)
            &&& pt@.len() + TAG_LEN == chunk@.len()
            &&& pt@.len() <= PLAINTEXT_MAX ==> chunk@ == aes256gcm_seal(key@, full, pt@)
        },
        r is Err ==> aes256gcm_open(
            key@,
            stream_nonce(nonce@, position, last),
            chunk@,
        ) is None,
{
    StreamBE32::<Aes256Gcm>::new(GenericArray::from_slice(key), GenericArray::from_slice(nonce))
        .decrypt(position, last, chunk)
}

/// `rand::thread_rng().fill_bytes` on a fresh array. The bytes are random, so
/// nothing is said of them.
#[verifier::external_body]
pub(crate) fn random_bytes<const N: usize>() -> (bytes: [u8; N]) {
    let mut bytes = [0u8; N];
    rand::thread_rng().fill_bytes(&mut bytes);
    bytes
}

/// `zeroize::Zeroize::zeroize` on a key: every byte becomes zero.
#[verifier::external_body]
fn zeroize_key(key: &mut Key)
    ensures
        forall|i: int| 0 <= i < 32 ==> final(key)@[i] == 0,
{
    key.zeroize();
}

/// The key that a password and a salt stand for.
pub open spec fn password_key(password: Seq<u8>, salt: Seq<u8>) -> Seq<u8> {
    argon2id(ARGON2_M_COST, ARGON2_T_COST, ARGON2_P_COST, password, salt)
}

/// Derive a 32-byte key from a password and salt using Argon2id.
pub fn derive_key(password: &[u8], salt: &Salt) -> (r: Result<Key, String>)
    ensures
        r is Ok <==> password@.len() <= PASSWORD_MAX,
        r matches Ok(key) ==> key@ == password_key(password@, salt@),
        r matches Err(e) ==> e@ == "密钥派生失败: "@ + "password is too long"@,
{
    match argon2_hash(ARGON2_M_COST, ARGON2_T_COST, ARGON2_P_COST, password, salt) {
        Ok(key) => Ok(key),
        Err(e) => Err(String::from_str("密钥派生失败: ").concat(e.as_str())),
    }
}

/// Generate a random salt.
pub fn random_salt() -> Salt {
    random_bytes::<16>()
}

/// The message of a failed encryption.
pub open spec fn seal_error() -> Seq<char> {
    "加密失败: "@ + "aead::Error"@
}

/// Write the message of a failed encryption.
pub(crate) fn seal_error_text() -> (s: String)
    ensures
        s@ == seal_error(),
{
    String::from_str("加密失败: ").concat("aead::Error")
}

/// The message of a failed decryption.
pub open spec fn open_error() -> Seq<char> {
    "解密失败：密码错误或数据已损坏"@
}

/// Write the message of a failed decryption.
pub(crate) fn open_error_text() -> (s: String)
    ensures
        s@ == open_error(),
{
    String::from_str("解密失败：密码错误或数据已损坏")
}

/// The message for data too short to hold a nonce and a ciphertext.
pub open spec fn short_error() -> Seq<char> {
    "密文数据太短"@
}

/// What [`encrypt`] stores of a plaintext under a nonce.
pub open spec fn blob(key: Seq<u8>, nonce: Seq<u8>, plaintext: Seq<u8>) -> Seq<u8> {
    nonce + aes256gcm_seal(key, nonce, plaintext)
}

/// The plaintext of stored data, or the message of the failure.
pub open spec fn blob_open(key: Seq<u8>, data: Seq<u8>) -> Result<Seq<u8>, Seq<char>> {
    if data.len() < 13 {
        Err(short_error())
    } else {
        match aes256gcm_open(key, data.take(12), data.skip(12)) {
            Some(pt) => Ok(pt),
            None => Err(open_error()),
        }
    }
}

/// Encrypt a plaintext under a given nonce. Returns nonce || ciphertext.
pub fn encrypt_with_nonce(key: &Key, nonce: &[u8; 12], plaintext: &[u8]) -> (r: Result<
    Vec<u8>,
    String,
>)
    ensures
        r is Ok <==> plaintext@.len() <= PLAINTEXT_MAX,
        r matches Ok(out) ==> {
            &&& out@ == blob(key@, nonce@, plaintext@)
            &&& out@.len() == plaintext@.len() + NONCE_LEN + TAG_LEN
            &&& blob_open(key@, out@) == Ok::<Seq<u8>, Seq<char>>(plaintext@)
        },
        r matches Err(e) ==> e@ == seal_error(),
{
    match gcm_encrypt(key, nonce.as_slice(), plaintext) {
        Ok(ct) => {
            let mut out: Vec<u8> = Vec::new();
            out.extend_from_slice(nonce.as_slice());
            out.extend_from_slice(ct.as_slice());
            proof {
                assert(out@.take(12) =~= nonce@);
                assert(out@.skip(12) =~= ct@);
            }
            Ok(out)
        },
        Err(e) => Err(String::from_str("加密失败: ").concat(gcm_error_text(&e).as_str())),
    }
}

/// Encrypt `plaintext` with `key`. Returns nonce || ciphertext (ciphertext
/// includes the GCM authentication tag) under a fresh random nonce.
pub fn encrypt(key: &Key, plaintext: &[u8]) -> (r: Result<Vec<u8>, String>)
    ensures
        r is Ok <==> plaintext@.len() <= PLAINTEXT_MAX,
        r matches Ok(out) ==> {
            &&& out@.len() == plaintext@.len() + NONCE_LEN + TAG_LEN
            &&& out@ == blob(key@, out@.take(12), plaintext@)
            &&& blob_open(key@, out@) == Ok::<Seq<u8>, Seq<char>>(plaintext@)
        },
        r matches Err(e) ==> e@ == seal_error(),
{
    let nonce = random_bytes::<12>();
    let r = encrypt_with_nonce(key, &nonce, plaintext);
    assert(r matches Ok(out) ==> out@.take(12) =~= nonce@);
    r
}

/// Decrypt data previously produced by [`encrypt`]. A wrong password makes the
/// GCM tag verification fail.
///
/// Nothing opens but what encrypting the plaintext under this key makes: data made
/// under another key, or changed since, could open only if the cipher made it out of
/// another plaintext too. That the cipher does not is left unsaid.
pub fn decrypt(key: &Key, data: &[u8]) -> (r: Result<Vec<u8>, String>)
    ensures
        r matches Ok(pt) ==> blob_open(key@, data@) == Ok::<Seq<u8>, Seq<char>>(pt@),
        r matches Err(e) ==> blob_open(key@, data@) == Err::<Seq<u8>, Seq<char>>(e@),
        r matches Ok(pt) ==> (pt@.len() <= PLAINTEXT_MAX ==> data@ == blob(
            key@,
            data@.take(12),
            pt@,
        )),
{
    if data.len() < 13 {
        return Err(String::from_str("密文数据太短"));
    }
    let nonce = slice_subrange(data, 0, 12);
    let ct = slice_subrange(data, 12, data.len());
    assert(nonce@ =~= data@.take(12));
    assert(ct@ =~= data@.skip(12));
    assert(nonce@ + ct@ =~= data@);
    match gcm_decrypt(key, nonce, ct) {
        Ok(pt) => Ok(pt),
        Err(_) => Err(open_error_text()),
    }
}

/// Zero out a key in memory.
pub fn zero_key(key: &mut Key)
    ensures
        final(key)@ == Seq::new(32, |i: int| 0u8),
{
    zeroize_key(key);
    assert(key@ =~= Seq::new(32, |i: int| 0u8));
}

proof fn lemma_difference_bit(diff: u8, x: u8, y: u8)
    ensures
        (diff | (x ^ y)) == 0 <==> diff == 0 && x == y,
{
    assert((diff | (x ^ y)) == 0 <==> diff == 0 && x == y) by (bit_vector);
}

/// Constant-time password comparison for the confirmation step.
pub fn passwords_match(a: &[u8], b: &[u8]) -> (r: bool)
    ensures
        r == (a@ == b@),
{
    if a.len() != b.len() {
        return false;
    }
    let mut diff: u8 = 0;
    let mut i: usize = 0;
    assert(a@.take(0) =~= b@.take(0));
    while i < a.len()
        invariant
            i <= a.len(),
            a@.len() == b@.len(),
            diff == 0 <==> a@.take(i as int) == b@.take(i as int),
        decreases a.len() - i,
    {
        let x: u8 = a[i];
        let y: u8 = b[i];
        proof {
            lemma_difference_bit(diff, x, y);
            assert(a@.take(i + 1) =~= a@.take(i as int).push(x));
            assert(b@.take(i + 1) =~= b@.take(i as int).push(y));
            if a@.take(i + 1) == b@.take(i + 1) {
                assert(a@.take(i as int) =~= a@.take(i + 1).drop_last());
                assert(b@.take(i as int) =~= b@.take(i + 1).drop_last());
                assert(a@.take(i + 1).last() == b@.take(i + 1).last());
            }
        }
        diff = diff | (x ^ y);
        i = i + 1;
    }
    assert(a@.take(i as int) =~= a@);
    assert(b@.take(i as int) =~= b@);
    diff == 0
}

/// The same password and salt always derive the same key.
pub proof fn derived_key_is_deterministic(p1: Seq<u8>, s1: Seq<u8>, p2: Seq<u8>, s2: Seq<u8>)
    requires
        p1 == p2,
        s1 == s2,
    ensures
        password_key(p1, s1) == password_key(p2, s2),
{
}

// ── laws ──

/// What was encrypted under a key is decrypted under it, and is 28 bytes longer than the
/// plaintext.
pub proof fn decrypting_undoes_encrypting(
    key: &Key,
    nonce: &[u8; 12],
    plaintext: &[u8],
    sealed: Vec<u8>,
    data: &[u8],
    r: Result<Vec<u8>, String>,
)
    requires
        call_ensures(encrypt, (key, plaintext), Ok::<Vec<u8>, String>(sealed)) || call_ensures(
            encrypt_with_nonce,
            (key, nonce, plaintext),
            Ok::<Vec<u8>, String>(sealed),
        ),
        data@ == sealed@,
        call_ensures(decrypt, (key, data), r),
    ensures
        r matches Ok(back) && back@ == plaintext@,
        sealed@.len() == plaintext@.len() + 28,
{
}

/// What is stored of a plaintext is the nonce and what the cipher makes under it.
pub proof fn nonce_stands_in_front(
    key: &Key,
    nonce: &[u8; 12],
    plaintext: &[u8],
    sealed: Vec<u8>,
)
    requires
        call_ensures(
            encrypt_with_nonce,
            (key, nonce, plaintext),
            Ok::<Vec<u8>, String>(sealed),
        ),
    ensures
        sealed@.take(12) == nonce@,
        sealed@.skip(12) == aes256gcm_seal(key@, nonce@, plaintext@),
{
    assert(nonce@.len() == 12);
    assert(sealed@.take(12) =~= nonce@);
    assert(sealed@.skip(12) =~= aes256gcm_seal(key@, nonce@, plaintext@));
}

/// Encryption fails on nothing but a plaintext of more than 64 GiB, and then says so.
pub proof fn encryption_takes_what_the_cipher_takes(
    key: &Key,
    nonce: &[u8; 12],
    plaintext: &[u8],
    r: Result<Vec<u8>, String>,
)
    requires
        call_ensures(encrypt, (key, plaintext), r) || call_ensures(
            encrypt_with_nonce,
            (key, nonce, plaintext),
            r,
        ),
    ensures
        r is Ok <==> plaintext@.len() <= 0x10_0000_0000,
        r matches Err(e) ==> e@.len() > 0,
{
    reveal_strlit("加密失败: ");
}

/// What does not open is told apart from a password that is right: data that is too
/// short to hold a nonce and a ciphertext, and data that the cipher refuses, which looks
/// like a wrong password.
pub proof fn refused_data_is_told_of(key: &Key, data: &[u8], r: Result<Vec<u8>, String>)
    requires
        call_ensures(decrypt, (key, data), r),
    ensures
        r matches Err(e) ==> e@ == if data@.len() < 13 {
            "密文数据太短"@
        } else {
            "解密失败：密码错误或数据已损坏"@
        },
        data@.len() < 13 ==> r is Err,
        data@.len() >= 13 ==> (r is Ok <==> aes256gcm_open(
            key@,
            data@.take(12),
            data@.skip(12),
        ) is Some),
{
}

/// The key of a password and a salt is that of Argon2id with 64 MiB of memory, three
/// passes and one lane, and every password has one that is not longer than 4 GiB.
pub proof fn keys_are_derived(password: &[u8], salt: &Salt, r: Result<Key, String>)
    requires
        call_ensures(derive_key, (password, salt), r),
    ensures
        r is Ok <==> password@.len() <= 0xFFFF_FFFF,
        r matches Ok(key) ==> key@ == argon2id(65536, 3, 1, password@, salt@),
{
}

/// Passwords match exactly where they are the same, byte by byte.
pub proof fn matching_passwords_are_the_same(a: &[u8], b: &[u8], r: bool)
    requires
        call_ensures(passwords_match, (a, b), r),
    ensures
        r <==> a@.len() == b@.len() && forall|i: int| 0 <= i < a@.len() ==> #[trigger] a@[i] == b@[i],
{
    if a@.len() == b@.len() && (forall|i: int| 0 <= i < a@.len() ==> #[trigger] a@[i] == b@[i]) {
        assert(a@ =~= b@);
    }
}

/// A key that is zeroed holds nothing but zeros.
pub proof fn zeroed_key_is_gone(key: &mut Key)
    requires
        call_ensures(zero_key, (key,), ()),
    ensures
        forall|i: int| 0 <= i < 32 ==> #[trigger] final(key)@[i] == 0,
{
}

} // verus!
