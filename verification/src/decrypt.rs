//! Decryption of the CookieCloud payload, and the matching encryption.
//!
//! The key is derived from the user's UUID and password: the first 16 lower-case
//! hex digits of the MD5 digest of `uuid-password`. The `aes-128-cbc-fixed` type
//! uses that key with AES-128-CBC and a zero IV; the `legacy` type treats it as an
//! OpenSSL passphrase (`Salted__` header, EVP_BytesToKey with MD5, AES-256-CBC).
use vstd::prelude::*;
use aes::cipher::{BlockDecryptMut, BlockEncryptMut, KeyIvInit};
use md5::Digest;
use zeroize::Zeroize;
use crate::text::{ascii_lowercase, ascii_lowercase_chars, chars_eq_str};

verus! {

/// The MD5 digest of `data`, as `md5::Md5::digest` computes it.
pub uninterp spec fn md5_digest(data: Seq<u8>) -> Seq<u8>;

/// Calls `md5::Md5::digest`. The result is named by `md5_digest`; that it is 16
/// bytes long is the output size of the `Md5` type.
#[verifier::external_body]
fn md5(data: &[u8]) -> (res: Vec<u8>)
    ensures
        res@ == md5_digest(data@),
        res@.len() == 16,
{
    md5::Md5::digest(data).to_vec()
}

/// Calls `Zeroize::zeroize` on a byte vector, which overwrites its bytes with
/// zeros and then clears it.
#[verifier::external_body]
fn wipe(v: &mut Vec<u8>)
    ensures
        final(v)@.len() == 0,
{
    v.zeroize();
}

/// The ASCII code of the lower-case hex digit for `n`, where `n < 16`.
pub open spec fn hex_digit(n: int) -> u8 {
    if n < 10 {
        (48 + n) as u8
    } else {
        (87 + n) as u8
    }
}

/// The lower-case hex text of `bytes`, two ASCII digits per byte.
pub open spec fn hex_ascii(bytes: Seq<u8>) -> Seq<u8>
    decreases bytes.len(),
{
    if bytes.len() == 0 {
        Seq::empty()
    } else {
        hex_ascii(bytes.drop_last()) + seq![
            hex_digit(bytes.last() as int / 16),
            hex_digit(bytes.last() as int % 16),
        ]
    }
}

/// The bytes of `uuid-password`.
pub open spec fn key_input(uuid: Seq<char>, password: Seq<char>) -> Seq<u8> {
    vstd::utf8::encode_utf8(uuid) + seq![45u8] + vstd::utf8::encode_utf8(password)
}

/// The key derived from a UUID and password: the first 16 hex digits of the MD5
/// digest of `uuid-password`, as ASCII bytes.
pub open spec fn md5_hex_key(uuid: Seq<char>, password: Seq<char>) -> Seq<u8> {
    hex_ascii(md5_digest(key_input(uuid, password))).take(16)
}

/// Whether `c` is the ASCII code of a lower-case hex digit.
pub open spec fn is_hex_ascii(c: u8) -> bool {
    (48 <= c <= 57) || (97 <= c <= 102)
}

proof fn lemma_hex_ascii_len(bytes: Seq<u8>)
    ensures
        hex_ascii(bytes).len() == 2 * bytes.len(),
        forall|i: int| 0 <= i < hex_ascii(bytes).len() ==> is_hex_ascii(#[trigger] hex_ascii(bytes)[i]),
    decreases bytes.len(),
{
    if bytes.len() > 0 {
        lemma_hex_ascii_len(bytes.drop_last());
        let prev = hex_ascii(bytes.drop_last());
        assert forall|i: int| 0 <= i < hex_ascii(bytes).len() implies is_hex_ascii(
            #[trigger] hex_ascii(bytes)[i],
        ) by {
            if i >= prev.len() {
                assert(0 <= bytes.last() as int / 16 < 16);
            }
        }
    }
}

/// Appends the bytes of `src` to `dst`.
fn push_all(dst: &mut Vec<u8>, src: &[u8])
    ensures
        final(dst)@ == old(dst)@ + src@,
{
    let mut i: usize = 0;
    while i < src.len()
        invariant
            i <= src.len(),
            dst@ == old(dst)@ + src@.take(i as int),
        decreases src.len() - i,
    {
        dst.push(src[i]);
        i = i + 1;
        assert(old(dst)@ + src@.take(i as int) =~= (old(dst)@ + src@.take(i - 1)).push(src@[i - 1]));
    }
    assert(src@.take(src.len() as int) =~= src@);
}

/// The ASCII code of the hex digit for `n`.
fn hex_digit_of(n: u8) -> (res: u8)
    requires
        n < 16,
    ensures
        res == hex_digit(n as int),
{
    if n < 10 {
        48 + n
    } else {
        87 + n
    }
}

/// The key derived from `uuid` and `password` (see the module text).
pub fn md5_hex_prefix(uuid: &str, password: &str) -> (res: Vec<u8>)
    ensures
        res@ == md5_hex_key(uuid@, password@),
        res@.len() == 16,
        forall|i: int| 0 <= i < 16 ==> is_hex_ascii(#[trigger] res@[i]),
{
    let mut input: Vec<u8> = Vec::new();
    push_all(&mut input, uuid.as_bytes());
    input.push(45u8);
    push_all(&mut input, password.as_bytes());
    assert(input@ =~= key_input(uuid@, password@));
    let hash = md5(input.as_slice());
    let mut hex: Vec<u8> = Vec::new();
    let mut i: usize = 0;
    while i < hash.len()
        invariant
            i <= hash.len() == 16,
            hex@ == hex_ascii(hash@.take(i as int)),
        decreases hash.len() - i,
    {
        let b = hash[i];
        hex.push(hex_digit_of(b / 16));
        hex.push(hex_digit_of(b % 16));
        i = i + 1;
        assert(hash@.take(i as int).drop_last() =~= hash@.take(i - 1));
    }
    assert(hash@.take(16) =~= hash@);
    proof {
        lemma_hex_ascii_len(hash@);
    }
    let mut key: Vec<u8> = Vec::new();
    push_all(&mut key, &hex.as_slice()[0..16]);
    wipe(&mut input);
    assert(key@ =~= hex_ascii(hash@).take(16));
    key
}


/// The `i`-th digest of EVP_BytesToKey with MD5 and one round: the digest of
/// the previous one (none for the first), the password and the salt.
pub open spec fn evp_block(password: Seq<u8>, salt: Seq<u8>, i: nat) -> Seq<u8>
    decreases i,
{
    if i == 0 {
        md5_digest(password + salt)
    } else {
        md5_digest(evp_block(password, salt, (i - 1) as nat) + password + salt)
    }
}

/// The first `n` digests of EVP_BytesToKey, concatenated.
pub open spec fn evp_stream(password: Seq<u8>, salt: Seq<u8>, n: nat) -> Seq<u8>
    decreases n,
{
    if n == 0 {
        Seq::empty()
    } else {
        evp_stream(password, salt, (n - 1) as nat) + evp_block(password, salt, (n - 1) as nat)
    }
}

/// The 32-byte key and 16-byte IV that EVP_BytesToKey derives.
pub open spec fn evp_key_iv(password: Seq<u8>, salt: Seq<u8>) -> (Seq<u8>, Seq<u8>) {
    let d = evp_stream(password, salt, 3);
    (d.take(32), d.subrange(32, 48))
}

/// OpenSSL's EVP_BytesToKey with MD5 and one round: a 32-byte key and a 16-byte
/// IV from a password and a salt.
pub fn evp_bytes_to_key(password: &[u8], salt: &[u8]) -> (res: (Vec<u8>, Vec<u8>))
    ensures
        (res.0@, res.1@) == evp_key_iv(password@, salt@),
        res.0@ == evp_block(password@, salt@, 0) + evp_block(password@, salt@, 1),
        res.1@ == evp_block(password@, salt@, 2),
        res.0@ == md5_digest(password@ + salt@) + md5_digest(
            md5_digest(password@ + salt@) + password@ + salt@,
        ),
        res.1@ == md5_digest(
            md5_digest(md5_digest(password@ + salt@) + password@ + salt@) + password@ + salt@,
        ),
        res.0@.len() == 32,
        res.1@.len() == 16,
{
    let mut derived: Vec<u8> = Vec::new();
    let mut prev: Vec<u8> = Vec::new();
    let ghost mut n: nat = 0;
    while derived.len() < 48
        invariant
            derived@ == evp_stream(password@, salt@, n),
            derived@.len() == 16 * n,
            n <= 3,
            n == 0 ==> prev@.len() == 0,
            n > 0 ==> prev@ == evp_block(password@, salt@, (n - 1) as nat),
            forall|j: nat| j < n ==> (#[trigger] evp_block(password@, salt@, j)).len() == 16,
        decreases 48 - derived@.len(),
    {
        let mut buf: Vec<u8> = Vec::new();
        push_all(&mut buf, prev.as_slice());
        push_all(&mut buf, password);
        push_all(&mut buf, salt);
        proof {
            if n == 0 {
                assert(buf@ =~= password@ + salt@);
            } else {
                assert(buf@ =~= evp_block(password@, salt@, (n - 1) as nat) + password@ + salt@);
            }
        }
        prev = md5(buf.as_slice());
        push_all(&mut derived, prev.as_slice());
        proof {
            n = n + 1;
        }
    }
    wipe(&mut prev);
    let ghost d = derived@;
    let mut key: Vec<u8> = Vec::new();
    push_all(&mut key, &derived.as_slice()[0..32]);
    let mut iv: Vec<u8> = Vec::new();
    push_all(&mut iv, &derived.as_slice()[32..48]);
    assert(key@ =~= d.take(32));
    assert(iv@ =~= d.subrange(32, 48));
    proof {
        let b0 = evp_block(password@, salt@, 0);
        let b1 = evp_block(password@, salt@, 1);
        let b2 = evp_block(password@, salt@, 2);
        assert(b0.len() == 16 && b1.len() == 16 && b2.len() == 16);
        assert(evp_stream(password@, salt@, 0) =~= Seq::<u8>::empty());
        assert(evp_stream(password@, salt@, 1) =~= b0);
        assert(evp_stream(password@, salt@, 2) =~= b0 + b1);
        assert(n == 3);
        assert(d == evp_stream(password@, salt@, 2) + b2);
        assert(d =~= b0 + b1 + b2);
        assert(key@ =~= b0 + b1);
        assert(iv@ =~= b2);
    }
    wipe(&mut derived);
    (key, iv)
}


/// EVP_BytesToKey is OpenSSL's with MD5 and one round over the whole password:
/// with `D1 = MD5(password || salt)` and `Di+1 = MD5(Di || password || salt)`, the
/// key is `D1 || D2` and the IV is `D3`, for a password of any length.
pub proof fn lemma_evp_is_openssl(password: Seq<u8>, salt: Seq<u8>)
    requires
        md5_digest(password + salt).len() == 16,
        md5_digest(md5_digest(password + salt) + password + salt).len() == 16,
        md5_digest(md5_digest(md5_digest(password + salt) + password + salt) + password + salt).len()
            == 16,
    ensures
        ({
            let d1 = md5_digest(password + salt);
            let d2 = md5_digest(d1 + password + salt);
            let d3 = md5_digest(d2 + password + salt);
            evp_key_iv(password, salt) == (d1 + d2, d3)
        }),
{
    let d1 = md5_digest(password + salt);
    let d2 = md5_digest(d1 + password + salt);
    let d3 = md5_digest(d2 + password + salt);
    assert(evp_block(password, salt, 0) == d1);
    assert(evp_block(password, salt, 1) == d2);
    assert(evp_block(password, salt, 2) == d3);
    assert(evp_stream(password, salt, 0) =~= Seq::<u8>::empty());
    assert(evp_stream(password, salt, 1) =~= d1);
    assert(evp_stream(password, salt, 2) =~= d1 + d2);
    let d = evp_stream(password, salt, 3);
    assert(d =~= d1 + d2 + d3);
    assert(d.take(32) =~= d1 + d2);
    assert(d.subrange(32, 48) =~= d3);
}

/// AES-128-CBC decryption followed by removal of PKCS#7 padding, as
/// `cbc::Decryptor<aes::Aes128>` with `decrypt_padded_mut::<Pkcs7>` computes it;
/// `None` where the padding is malformed.
pub uninterp spec fn aes128_cbc_decrypt(key: Seq<u8>, iv: Seq<u8>, ct: Seq<u8>) -> Option<Seq<u8>>;

/// The same with AES-256.
pub uninterp spec fn aes256_cbc_decrypt(key: Seq<u8>, iv: Seq<u8>, ct: Seq<u8>) -> Option<Seq<u8>>;

/// PKCS#7 padding followed by AES-128-CBC encryption, as `cbc::Encryptor<aes::Aes128>`
/// with `encrypt_padded_mut::<Pkcs7>` computes it.
pub uninterp spec fn aes128_cbc_encrypt(key: Seq<u8>, iv: Seq<u8>, pt: Seq<u8>) -> Seq<u8>;

/// The same with AES-256.
pub uninterp spec fn aes256_cbc_encrypt(key: Seq<u8>, iv: Seq<u8>, pt: Seq<u8>) -> Seq<u8>;

/// The view of an optional byte vector.
pub open spec fn bytes_opt(o: Option<Vec<u8>>) -> Option<Seq<u8>> {
    match o {
        Some(v) => Some(v@),
        None => None,
    }
}

/// The length of the ciphertext of a message of `n` bytes: PKCS#7 pads to the
/// next whole block, adding a block where `n` is one already.
pub open spec fn padded_len(n: int) -> int {
    (n / 16) * 16 + 16
}

/// Calls `cbc::Decryptor::<aes::Aes128>::new(key, iv).decrypt_padded_mut::<Pkcs7>`
/// on `buf` and copies out the plaintext. The plaintext is named by
/// `aes128_cbc_decrypt`; from the `cipher` source: a buffer that is empty or not
/// whole 16-byte blocks is refused, and the buffer keeps its length. The key and
/// IV must be 16 bytes, else the conversion to fixed-size arrays panics.
#[verifier::external_body]
fn aes128_cbc_decrypt_in_place(key: &[u8], iv: &[u8], buf: &mut Vec<u8>) -> (res: Option<Vec<u8>>)
    requires
        key@.len() == 16,
        iv@.len() == 16,
    ensures
        bytes_opt(res) == aes128_cbc_decrypt(key@, iv@, old(buf)@),
        old(buf)@.len() % 16 != 0 || old(buf)@.len() == 0 ==> res is None,
        final(buf)@.len() == old(buf)@.len(),
{
    match cbc::Decryptor::<aes::Aes128>::new(key.into(), iv.into()).decrypt_padded_mut::<
        aes::cipher::block_padding::Pkcs7,
    >(buf.as_mut_slice()) {
        Ok(pt) => Some(pt.to_vec()),
        Err(_) => None,
    }
}

/// Calls `cbc::Decryptor::<aes::Aes256>::new(key, iv).decrypt_padded_mut::<Pkcs7>`
/// on `buf`, as above, with a 32-byte key.
#[verifier::external_body]
fn aes256_cbc_decrypt_in_place(key: &[u8], iv: &[u8], buf: &mut Vec<u8>) -> (res: Option<Vec<u8>>)
    requires
        key@.len() == 32,
        iv@.len() == 16,
    ensures
        bytes_opt(res) == aes256_cbc_decrypt(key@, iv@, old(buf)@),
        old(buf)@.len() % 16 != 0 || old(buf)@.len() == 0 ==> res is None,
        final(buf)@.len() == old(buf)@.len(),
{
    match cbc::Decryptor::<aes::Aes256>::new(key.into(), iv.into()).decrypt_padded_mut::<
        aes::cipher::block_padding::Pkcs7,
    >(buf.as_mut_slice()) {
        Ok(pt) => Some(pt.to_vec()),
        Err(_) => None,
    }
}

/// Calls `cbc::Encryptor::<aes::Aes128>::new(key, iv).encrypt_padded_mut::<Pkcs7>`
/// on the first `msg_len` bytes of `buf` and copies out the ciphertext. From the
/// `cipher` and `inout` source: it succeeds exactly when `buf` has room for the
/// padded message. The ciphertext is named by `aes128_cbc_encrypt`, and decrypting
/// it with the same key and IV gives the message back.
#[verifier::external_body]
fn aes128_cbc_encrypt_in_place(key: &[u8], iv: &[u8], buf: &mut Vec<u8>, msg_len: usize) -> (res:
    Option<Vec<u8>>)
    requires
        key@.len() == 16,
        iv@.len() == 16,
    ensures
        res is Some <==> msg_len <= old(buf)@.len() && padded_len(msg_len as int) <= old(buf)@.len(),
        res matches Some(ct) ==> ct@ == aes128_cbc_encrypt(key@, iv@, old(buf)@.take(msg_len as int))
            && aes128_cbc_decrypt(key@, iv@, ct@) == Some(old(buf)@.take(msg_len as int))
            && ct@.len() == padded_len(msg_len as int),
        final(buf)@.len() == old(buf)@.len(),
{
    match cbc::Encryptor::<aes::Aes128>::new(key.into(), iv.into()).encrypt_padded_mut::<
        aes::cipher::block_padding::Pkcs7,
    >(buf.as_mut_slice(), msg_len) {
        Ok(ct) => Some(ct.to_vec()),
        Err(_) => None,
    }
}

/// Calls `cbc::Encryptor::<aes::Aes256>::new(key, iv).encrypt_padded_mut::<Pkcs7>`,
/// as above, with a 32-byte key.
#[verifier::external_body]
fn aes256_cbc_encrypt_in_place(key: &[u8], iv: &[u8], buf: &mut Vec<u8>, msg_len: usize) -> (res:
    Option<Vec<u8>>)
    requires
        key@.len() == 32,
        iv@.len() == 16,
    ensures
        res is Some <==> msg_len <= old(buf)@.len() && padded_len(msg_len as int) <= old(buf)@.len(),
        res matches Some(ct) ==> ct@ == aes256_cbc_encrypt(key@, iv@, old(buf)@.take(msg_len as int))
            && aes256_cbc_decrypt(key@, iv@, ct@) == Some(old(buf)@.take(msg_len as int))
            && ct@.len() == padded_len(msg_len as int),
        final(buf)@.len() == old(buf)@.len(),
{
    match cbc::Encryptor::<aes::Aes256>::new(key.into(), iv.into()).encrypt_padded_mut::<
        aes::cipher::block_padding::Pkcs7,
    >(buf.as_mut_slice(), msg_len) {
        Ok(ct) => Some(ct.to_vec()),
        Err(_) => None,
    }
}

/// Standard base64 decoding with padding, as the `STANDARD` engine of the
/// `base64` crate does it; the error carries the decoder's message.
pub uninterp spec fn base64_decoded(text: Seq<char>) -> Result<Seq<u8>, Seq<char>>;

/// The character of the standard base64 alphabet for a 6-bit value.
pub open spec fn base64_digit(v: int) -> char {
    if v < 26 {
        (65 + v) as char
    } else if v < 52 {
        (97 + v - 26) as char
    } else if v < 62 {
        (48 + v - 52) as char
    } else if v == 62 {
        '+'
    } else {
        '/'
    }
}

/// Standard base64 encoding with padding (RFC 4648), as the `STANDARD` engine
/// of the `base64` crate does it: each 3 bytes become 4 characters, and a last
/// group of 1 or 2 bytes is padded with `=`.
pub open spec fn base64_encoded(data: Seq<u8>) -> Seq<char>
    decreases data.len(),
{
    if data.len() == 0 {
        Seq::empty()
    } else if data.len() == 1 {
        let a = data[0] as int;
        seq![base64_digit(a / 4), base64_digit((a % 4) * 16), '=', '=']
    } else if data.len() == 2 {
        let a = data[0] as int;
        let b = data[1] as int;
        seq![base64_digit(a / 4), base64_digit((a % 4) * 16 + b / 16), base64_digit((b % 16) * 4), '=']
    } else {
        let a = data[0] as int;
        let b = data[1] as int;
        let c = data[2] as int;
        seq![
            base64_digit(a / 4),
            base64_digit((a % 4) * 16 + b / 16),
            base64_digit((b % 16) * 4 + c / 64),
            base64_digit(c % 64),
        ] + base64_encoded(data.skip(3))
    }
}

/// The view of a byte-vector result with a text error.
pub open spec fn bytes_result(r: Result<Vec<u8>, String>) -> Result<Seq<u8>, Seq<char>> {
    match r {
        Ok(v) => Ok(v@),
        Err(e) => Err(e@),
    }
}

/// Calls `base64::Engine::decode` with the `STANDARD` engine; an error is turned
/// into its text. The result is named by `base64_decoded`. The engine requires
/// canonical padding and no trailing bits, so it decodes exactly the texts that
/// its encoder writes, each to bytes whose encoding it is.
#[verifier::external_body]
fn base64_decode(text: &str) -> (res: Result<Vec<u8>, String>)
    ensures
        bytes_result(res) == base64_decoded(text@),
        res matches Ok(d) ==> text@ == base64_encoded(d@),
        res is Ok || forall|d: Seq<u8>| text@ != #[trigger] base64_encoded(d),
{
    match base64::Engine::decode(&base64::engine::general_purpose::STANDARD, text) {
        Ok(v) => Ok(v),
        Err(e) => Err(e.to_string()),
    }
}

/// Whether the standard base64 decoding of `text` is `data`.
pub open spec fn decodes_to(text: Seq<char>, data: Seq<u8>) -> bool {
    base64_decoded(text) == Ok::<Seq<u8>, Seq<char>>(data)
}

/// Calls `base64::Engine::encode` with the `STANDARD` engine. The text is named
/// is `base64_encoded` of the bytes, and the same engine decodes it back to
/// `data`.
#[verifier::external_body]
fn base64_encode(data: &[u8]) -> (res: String)
    ensures
        res@ == base64_encoded(data@),
        decodes_to(res@, data@),
{
    base64::Engine::encode(&base64::engine::general_purpose::STANDARD, data)
}

/// Calls `getrandom::getrandom` on a buffer of `len` bytes; an error is turned
/// into its text. Nothing is claimed of the bytes but their number.
#[verifier::external_body]
fn random_bytes(len: usize) -> (res: Result<Vec<u8>, String>)
    ensures
        res matches Ok(s) ==> s@.len() == len,
{
    let mut buf = vec![0u8; len];
    match getrandom::getrandom(&mut buf) {
        Ok(()) => Ok(buf),
        Err(e) => Err(e.to_string()),
    }
}

/// The length of the salt of a `legacy` payload.
pub const SALT_LEN: usize = 8;

/// A decryption error as a mathematical value.
pub enum DecryptErrorView {
    InvalidCiphertext(Seq<char>),
    UnsupportedCryptoType(Seq<char>),
    DecryptionFailed,
}

/// Why a payload could not be decrypted.
#[derive(Debug)]
pub enum DecryptError {
    /// The payload is not base64, or not a `Salted__` record; the text says which.
    InvalidCiphertext(String),
    /// The crypto type is neither `legacy` nor `aes-128-cbc-fixed`.
    UnsupportedCryptoType(String),
    /// The padding or the decrypted document is malformed.
    DecryptionFailed,
}

impl View for DecryptError {
    type V = DecryptErrorView;

    open spec fn view(&self) -> DecryptErrorView {
        match self {
            DecryptError::InvalidCiphertext(s) => DecryptErrorView::InvalidCiphertext(s@),
            DecryptError::UnsupportedCryptoType(s) => DecryptErrorView::UnsupportedCryptoType(s@),
            DecryptError::DecryptionFailed => DecryptErrorView::DecryptionFailed,
        }
    }
}

impl DecryptError {
    /// The text shown for this error.
    pub fn message(&self) -> (res: String)
        ensures
            res@ == match self@ {
                DecryptErrorView::InvalidCiphertext(s) => "invalid ciphertext: "@ + s,
                DecryptErrorView::UnsupportedCryptoType(s) => "unsupported crypto type: "@ + s,
                DecryptErrorView::DecryptionFailed => "decryption failed"@,
            },
    {
        match self {
            DecryptError::InvalidCiphertext(s) => {
                let mut m = String::from_str("invalid ciphertext: ");
                m.append(s.as_str());
                m
            },
            DecryptError::UnsupportedCryptoType(s) => {
                let mut m = String::from_str("unsupported crypto type: ");
                m.append(s.as_str());
                m
            },
            DecryptError::DecryptionFailed => String::from_str("decryption failed"),
        }
    }
}

/// Why a payload could not be encrypted.
#[derive(Debug)]
pub enum EncryptError {
    /// The crypto type is unknown, or the cipher refused the buffer.
    EncryptionFailed,
    /// The system random source failed; the text is its error.
    RngError(String),
}

impl EncryptError {
    /// The text shown for this error.
    pub fn message(&self) -> (res: String)
        ensures
            res@ == match self {
                EncryptError::EncryptionFailed => "encryption failed"@,
                EncryptError::RngError(s) => "RNG error: "@ + s@,
            },
    {
        match self {
            EncryptError::EncryptionFailed => String::from_str("encryption failed"),
            EncryptError::RngError(s) => {
                let mut m = String::from_str("RNG error: ");
                m.append(s.as_str());
                m
            },
        }
    }
}

/// The view of a decryption result.
pub open spec fn decrypt_result(r: Result<Vec<u8>, DecryptError>) -> Result<Seq<u8>, DecryptErrorView> {
    match r {
        Ok(v) => Ok(v@),
        Err(e) => Err(e@),
    }
}

/// Sixteen zero bytes: the IV of `aes-128-cbc-fixed`.
pub open spec fn zero_iv() -> Seq<u8> {
    Seq::new(16, |i: int| 0u8)
}

/// The bytes of `Salted__`, the header of OpenSSL's salted format.
pub open spec fn salted_magic() -> Seq<u8> {
    seq![83u8, 97u8, 108u8, 116u8, 101u8, 100u8, 95u8, 95u8]
}

/// The plaintext of an `aes-128-cbc-fixed` payload.
pub open spec fn fixed_iv_plaintext(data: Seq<u8>, key: Seq<u8>) -> Result<Seq<u8>, DecryptErrorView> {
    match aes128_cbc_decrypt(key, zero_iv(), data) {
        Some(pt) => Ok(pt),
        None => Err(DecryptErrorView::DecryptionFailed),
    }
}

/// The plaintext of a `legacy` payload: `Salted__`, an 8-byte salt, then the
/// AES-256-CBC ciphertext under the key and IV derived from the passphrase and salt.
pub open spec fn legacy_plaintext(data: Seq<u8>, passphrase: Seq<u8>) -> Result<
    Seq<u8>,
    DecryptErrorView,
> {
    if data.len() < 16 {
        Err(DecryptErrorView::InvalidCiphertext("data too short"@))
    } else if data.take(8) != salted_magic() {
        Err(DecryptErrorView::InvalidCiphertext("missing Salted__ prefix"@))
    } else {
        let (key, iv) = evp_key_iv(passphrase, data.subrange(8, 16));
        match aes256_cbc_decrypt(key, iv, data.skip(16)) {
            Some(pt) => Ok(pt),
            None => Err(DecryptErrorView::DecryptionFailed),
        }
    }
}

/// The 16 zero bytes of the fixed IV.
fn zero_iv_bytes() -> (res: Vec<u8>)
    ensures
        res@ == zero_iv(),
{
    let mut iv: Vec<u8> = Vec::new();
    let mut i: usize = 0;
    while i < 16
        invariant
            i <= 16,
            iv@ == Seq::new(i as nat, |j: int| 0u8),
        decreases 16 - i,
    {
        iv.push(0u8);
        i = i + 1;
        assert(iv@ =~= Seq::new(i as nat, |j: int| 0u8));
    }
    iv
}

/// Decrypts an `aes-128-cbc-fixed` payload with a 16-byte key.
pub fn decrypt_fixed_iv(encrypted_data: &[u8], key: &[u8]) -> (res: Result<Vec<u8>, DecryptError>)
    requires
        key@.len() == 16,
    ensures
        decrypt_result(res) == fixed_iv_plaintext(encrypted_data@, key@),
        encrypted_data@.len() % 16 != 0 || encrypted_data@.len() == 0 ==> res is Err,
{
    let iv = zero_iv_bytes();
    let mut buf: Vec<u8> = Vec::new();
    push_all(&mut buf, encrypted_data);
    assert(buf@ =~= encrypted_data@);
    match aes128_cbc_decrypt_in_place(key, iv.as_slice(), &mut buf) {
        Some(pt) => {
            wipe(&mut buf);
            Ok(pt)
        },
        None => Err(DecryptError::DecryptionFailed),
    }
}

/// Whether `data` starts with `Salted__`.
fn has_salted_magic(data: &[u8]) -> (res: bool)
    requires
        data@.len() >= 8,
    ensures
        res == (data@.take(8) == salted_magic()),
{
    let res = data[0] == 83u8 && data[1] == 97u8 && data[2] == 108u8 && data[3] == 116u8
        && data[4] == 101u8 && data[5] == 100u8 && data[6] == 95u8 && data[7] == 95u8;
    if res {
        assert(data@.take(8) =~= salted_magic());
    } else {
        assert(data@.take(8) != salted_magic()) by {
            if data@.take(8) == salted_magic() {
                assert(data@.take(8)[0] == data@[0]);
                assert(data@.take(8)[1] == data@[1]);
                assert(data@.take(8)[2] == data@[2]);
                assert(data@.take(8)[3] == data@[3]);
                assert(data@.take(8)[4] == data@[4]);
                assert(data@.take(8)[5] == data@[5]);
                assert(data@.take(8)[6] == data@[6]);
                assert(data@.take(8)[7] == data@[7]);
            }
        }
    }
    res
}

/// Decrypts a `legacy` payload with a passphrase.
pub fn decrypt_legacy(encrypted_data: &[u8], password: &[u8]) -> (res: Result<Vec<u8>, DecryptError>)
    ensures
        decrypt_result(res) == legacy_plaintext(encrypted_data@, password@),
{
    if encrypted_data.len() < 16 {
        return Err(DecryptError::InvalidCiphertext(String::from_str("data too short")));
    }
    if !has_salted_magic(encrypted_data) {
        return Err(DecryptError::InvalidCiphertext(String::from_str("missing Salted__ prefix")));
    }
    let salt = &encrypted_data[8..16];
    let ct = &encrypted_data[16..encrypted_data.len()];
    let (mut key, mut iv) = evp_bytes_to_key(password, salt);
    let mut buf: Vec<u8> = Vec::new();
    push_all(&mut buf, ct);
    assert(buf@ =~= encrypted_data@.skip(16));
    assert(salt@ =~= encrypted_data@.subrange(8, 16));
    let out = aes256_cbc_decrypt_in_place(key.as_slice(), iv.as_slice(), &mut buf);
    wipe(&mut key);
    wipe(&mut iv);
    match out {
        Some(pt) => {
            wipe(&mut buf);
            Ok(pt)
        },
        None => Err(DecryptError::DecryptionFailed),
    }
}

/// The crypto type in force: the given one, else `legacy`.
pub open spec fn crypto_type_or_default(ct: Option<Seq<char>>) -> Seq<char> {
    match ct {
        Some(c) => c,
        None => "legacy"@,
    }
}

/// The view of an optional string slice.
pub open spec fn opt_str(o: Option<&str>) -> Option<Seq<char>> {
    match o {
        Some(s) => Some(s@),
        None => None,
    }
}

/// The plaintext of decoded payload bytes under the given crypto type, matched
/// without regard to ASCII case.
pub open spec fn payload_plaintext(
    uuid: Seq<char>,
    data: Seq<u8>,
    password: Seq<char>,
    crypto_type: Option<Seq<char>>,
) -> Result<Seq<u8>, DecryptErrorView> {
    let ct = crypto_type_or_default(crypto_type);
    let key = md5_hex_key(uuid, password);
    if ascii_lowercase(ct) == "aes-128-cbc-fixed"@ {
        fixed_iv_plaintext(data, key)
    } else if ascii_lowercase(ct) == "legacy"@ {
        legacy_plaintext(data, key)
    } else {
        Err(DecryptErrorView::UnsupportedCryptoType(ct))
    }
}

/// The plaintext of a base64 payload.
pub open spec fn decrypted_plaintext(
    uuid: Seq<char>,
    encrypted: Seq<char>,
    password: Seq<char>,
    crypto_type: Option<Seq<char>>,
) -> Result<Seq<u8>, DecryptErrorView> {
    match base64_decoded(encrypted) {
        Err(m) => Err(DecryptErrorView::InvalidCiphertext(m)),
        Ok(data) => payload_plaintext(uuid, data, password, crypto_type),
    }
}

/// Decrypts decoded payload bytes; the crypto type defaults to `legacy`.
pub fn decrypt_bytes(
    uuid: &str,
    encrypted_bytes: &[u8],
    password: &str,
    crypto_type: Option<&str>,
) -> (res: Result<Vec<u8>, DecryptError>)
    ensures
        decrypt_result(res) == payload_plaintext(uuid@, encrypted_bytes@, password@, opt_str(crypto_type)),
{
    let ct: &str = match crypto_type {
        Some(c) => c,
        None => "legacy",
    };
    let lower = ascii_lowercase_chars(ct);
    if chars_eq_str(&lower, "aes-128-cbc-fixed") {
        let mut key = md5_hex_prefix(uuid, password);
        let out = decrypt_fixed_iv(encrypted_bytes, key.as_slice());
        wipe(&mut key);
        out
    } else if chars_eq_str(&lower, "legacy") {
        let mut passphrase = md5_hex_prefix(uuid, password);
        let out = decrypt_legacy(encrypted_bytes, passphrase.as_slice());
        wipe(&mut passphrase);
        out
    } else {
        Err(DecryptError::UnsupportedCryptoType(String::from_str(ct)))
    }
}

/// Decrypts a base64 payload into the bytes of the JSON document it holds.
pub fn decrypt(uuid: &str, encrypted: &str, password: &str, crypto_type: Option<&str>) -> (res:
    Result<Vec<u8>, DecryptError>)
    ensures
        decrypt_result(res) == decrypted_plaintext(uuid@, encrypted@, password@, opt_str(crypto_type)),
{
    match base64_decode(encrypted) {
        Err(m) => Err(DecryptError::InvalidCiphertext(m)),
        Ok(bytes) => decrypt_bytes(uuid, bytes.as_slice(), password, crypto_type),
    }
}


proof fn lemma_padded_len_fits(n: int)
    requires
        n >= 0,
    ensures
        n < padded_len(n) <= n + 16,
{
    assert((n / 16) * 16 <= n) by (nonlinear_arith)
        requires
            n >= 0,
    ;
    assert(n < (n / 16) * 16 + 16) by (nonlinear_arith)
        requires
            n >= 0,
    ;
}

/// `data` followed by 16 zero bytes: room for the padding block.
fn padded_buffer(data: &[u8]) -> (res: Vec<u8>)
    requires
        data@.len() + 16 <= usize::MAX,
    ensures
        res@.len() == data@.len() + 16,
        res@.take(data@.len() as int) == data@,
{
    let mut buf: Vec<u8> = Vec::new();
    push_all(&mut buf, data);
    let zeros = zero_iv_bytes();
    push_all(&mut buf, zeros.as_slice());
    assert(buf@.take(data@.len() as int) =~= data@);
    buf
}

/// Encrypts a message as an `aes-128-cbc-fixed` payload with a 16-byte key.
pub fn encrypt_fixed_iv(plaintext: &[u8], key: &[u8]) -> (res: Result<Vec<u8>, EncryptError>)
    requires
        key@.len() == 16,
        plaintext@.len() + 16 <= usize::MAX,
    ensures
        res matches Ok(ct) && ct@ == aes128_cbc_encrypt(key@, zero_iv(), plaintext@),
        res matches Ok(ct) ==> ct@.len() == padded_len(plaintext@.len() as int),
        res matches Ok(ct) ==> fixed_iv_plaintext(ct@, key@) == Ok::<Seq<u8>, DecryptErrorView>(plaintext@),
{
    let iv = zero_iv_bytes();
    let mut buf = padded_buffer(plaintext);
    proof {
        lemma_padded_len_fits(plaintext@.len() as int);
    }
    match aes128_cbc_encrypt_in_place(key, iv.as_slice(), &mut buf, plaintext.len()) {
        Some(ct) => Ok(ct),
        None => Err(EncryptError::EncryptionFailed),
    }
}

/// The `legacy` payload of a message under a passphrase and salt.
pub open spec fn legacy_payload(plaintext: Seq<u8>, passphrase: Seq<u8>, salt: Seq<u8>) -> Seq<u8> {
    let (key, iv) = evp_key_iv(passphrase, salt);
    salted_magic() + salt + aes256_cbc_encrypt(key, iv, plaintext)
}

/// Encrypts a message as a `legacy` payload with the given 8-byte salt.
pub fn encrypt_legacy_with_salt(plaintext: &[u8], password: &[u8], salt: &[u8]) -> (res: Result<
    Vec<u8>,
    EncryptError,
>)
    requires
        salt@.len() == 8,
        plaintext@.len() + 16 <= usize::MAX,
    ensures
        res matches Ok(ct) && ct@ == legacy_payload(plaintext@, password@, salt@),
        res matches Ok(ct) ==> ct@.len() == 16 + padded_len(plaintext@.len() as int),
        res matches Ok(ct) ==> legacy_plaintext(ct@, password@) == Ok::<Seq<u8>, DecryptErrorView>(
            plaintext@,
        ),
{
    let (mut key, mut iv) = evp_bytes_to_key(password, salt);
    let mut buf = padded_buffer(plaintext);
    proof {
        lemma_padded_len_fits(plaintext@.len() as int);
    }
    let out = aes256_cbc_encrypt_in_place(key.as_slice(), iv.as_slice(), &mut buf, plaintext.len());
    wipe(&mut key);
    wipe(&mut iv);
    let ct = match out {
        Some(ct) => ct,
        None => {
            return Err(EncryptError::EncryptionFailed);
        },
    };
    let mut result: Vec<u8> = Vec::new();
    result.push(83u8);
    result.push(97u8);
    result.push(108u8);
    result.push(116u8);
    result.push(101u8);
    result.push(100u8);
    result.push(95u8);
    result.push(95u8);
    push_all(&mut result, salt);
    push_all(&mut result, ct.as_slice());
    proof {
        let r = result@;
        assert(r =~= salted_magic() + salt@ + ct@);
        assert(r.take(8) =~= salted_magic());
        assert(r.subrange(8, 16) =~= salt@);
        assert(r.skip(16) =~= ct@);
    }
    Ok(result)
}

/// Encrypts a message as a `legacy` payload with a fresh random salt.
fn encrypt_legacy(plaintext: &[u8], password: &[u8]) -> (res: Result<Vec<u8>, EncryptError>)
    requires
        plaintext@.len() + 16 <= usize::MAX,
    ensures
        res is Ok || res matches Err(EncryptError::RngError(_)),
        res matches Ok(ct) ==> exists|salt: Seq<u8>|
            salt.len() == SALT_LEN && ct@ == #[trigger] legacy_payload(plaintext@, password@, salt),
        res matches Ok(ct) ==> ct@.len() == 16 + padded_len(plaintext@.len() as int),
        res matches Ok(ct) ==> legacy_plaintext(ct@, password@) == Ok::<Seq<u8>, DecryptErrorView>(
            plaintext@,
        ),
{
    match random_bytes(SALT_LEN) {
        Err(m) => Err(EncryptError::RngError(m)),
        Ok(salt) => encrypt_legacy_with_salt(plaintext, password, salt.as_slice()),
    }
}

/// Encrypts `plaintext` as a base64 payload that `decrypt` reads back; the crypto
/// type defaults to `legacy`.
pub fn encrypt(uuid: &str, plaintext: &str, password: &str, crypto_type: Option<&str>) -> (res:
    Result<String, EncryptError>)
    requires
        vstd::utf8::encode_utf8(plaintext@).len() + 16 <= usize::MAX,
    ensures
        res matches Ok(s) ==> decrypted_plaintext(uuid@, s@, password@, opt_str(crypto_type))
            == Ok::<Seq<u8>, DecryptErrorView>(vstd::utf8::encode_utf8(plaintext@)),
        ascii_lowercase(crypto_type_or_default(opt_str(crypto_type))) == "aes-128-cbc-fixed"@
            ==> (res matches Ok(s) && s@ == base64_encoded(
            aes128_cbc_encrypt(
                md5_hex_key(uuid@, password@),
                zero_iv(),
                vstd::utf8::encode_utf8(plaintext@),
            ),
        )),
        ascii_lowercase(crypto_type_or_default(opt_str(crypto_type))) == "aes-128-cbc-fixed"@
            ==> (res matches Ok(s) && decodes_to(
            s@,
            aes128_cbc_encrypt(
                md5_hex_key(uuid@, password@),
                zero_iv(),
                vstd::utf8::encode_utf8(plaintext@),
            ),
        ) && aes128_cbc_encrypt(
            md5_hex_key(uuid@, password@),
            zero_iv(),
            vstd::utf8::encode_utf8(plaintext@),
        ).len() == padded_len(vstd::utf8::encode_utf8(plaintext@).len() as int)),
        ascii_lowercase(crypto_type_or_default(opt_str(crypto_type))) == "legacy"@ ==> (res is Ok
            || res matches Err(EncryptError::RngError(_))),
        ascii_lowercase(crypto_type_or_default(opt_str(crypto_type))) == "legacy"@ ==> (
        res matches Ok(s) ==> exists|salt: Seq<u8>|
            salt.len() == SALT_LEN && decodes_to(
                s@,
                #[trigger] legacy_payload(
                    vstd::utf8::encode_utf8(plaintext@),
                    md5_hex_key(uuid@, password@),
                    salt,
                ),
            ) && legacy_payload(
                vstd::utf8::encode_utf8(plaintext@),
                md5_hex_key(uuid@, password@),
                salt,
            ).len() == 16 + padded_len(vstd::utf8::encode_utf8(plaintext@).len() as int)),
        ascii_lowercase(crypto_type_or_default(opt_str(crypto_type))) != "aes-128-cbc-fixed"@
            && ascii_lowercase(crypto_type_or_default(opt_str(crypto_type))) != "legacy"@
            ==> (res matches Err(EncryptError::EncryptionFailed)),
{
    let pt = plaintext.as_bytes();
    let ct: &str = match crypto_type {
        Some(c) => c,
        None => "legacy",
    };
    let lower = ascii_lowercase_chars(ct);
    let ghost mut salt: Seq<u8> = Seq::empty();
    let encrypted = if chars_eq_str(&lower, "aes-128-cbc-fixed") {
        let mut key = md5_hex_prefix(uuid, password);
        let out = encrypt_fixed_iv(pt, key.as_slice());
        wipe(&mut key);
        match out {
            Ok(c) => c,
            Err(e) => {
                return Err(e);
            },
        }
    } else if chars_eq_str(&lower, "legacy") {
        let mut passphrase = md5_hex_prefix(uuid, password);
        let out = encrypt_legacy(pt, passphrase.as_slice());
        let ghost pv = passphrase@;
        wipe(&mut passphrase);
        match out {
            Ok(c) => {
                proof {
                    salt = choose|salt: Seq<u8>|
                        salt.len() == SALT_LEN && c@ == #[trigger] legacy_payload(pt@, pv, salt);
                    assert(c@ == legacy_payload(pt@, pv, salt));
                    assert(pt@ == vstd::utf8::encode_utf8(plaintext@));
                    assert(pv == md5_hex_key(uuid@, password@));
                    assert(c@ == legacy_payload(
                        vstd::utf8::encode_utf8(plaintext@),
                        md5_hex_key(uuid@, password@),
                        salt,
                    ));
                }
                c
            },
            Err(e) => {
                return Err(e);
            },
        }
    } else {
        return Err(EncryptError::EncryptionFailed);
    };
    let text = base64_encode(encrypted.as_slice());
    proof {
        reveal_strlit("legacy");
        reveal_strlit("aes-128-cbc-fixed");
        assert(decodes_to(text@, encrypted@));
        if ascii_lowercase(crypto_type_or_default(opt_str(crypto_type))) == "legacy"@ {
            assert(lower@ == "legacy"@);
            assert(lower@ != "aes-128-cbc-fixed"@);
            assert(encrypted@ == legacy_payload(
                vstd::utf8::encode_utf8(plaintext@),
                md5_hex_key(uuid@, password@),
                salt,
            ));
            assert(decodes_to(
                text@,
                legacy_payload(
                    vstd::utf8::encode_utf8(plaintext@),
                    md5_hex_key(uuid@, password@),
                    salt,
                ),
            ));
        }
    }
    Ok(text)
}


/// Without a crypto type a payload is read as `legacy`.
pub proof fn lemma_default_crypto_type_is_legacy(
    uuid: Seq<char>,
    encrypted: Seq<char>,
    password: Seq<char>,
)
    ensures
        decrypted_plaintext(uuid, encrypted, password, None) == decrypted_plaintext(
            uuid,
            encrypted,
            password,
            Some("legacy"@),
        ),
{
}

/// A supported crypto type is matched without regard to ASCII case.
pub proof fn lemma_crypto_type_case_insensitive(
    uuid: Seq<char>,
    data: Seq<u8>,
    password: Seq<char>,
    a: Seq<char>,
    b: Seq<char>,
)
    requires
        ascii_lowercase(a) == ascii_lowercase(b),
        ascii_lowercase(a) == "legacy"@ || ascii_lowercase(a) == "aes-128-cbc-fixed"@,
    ensures
        payload_plaintext(uuid, data, password, Some(a)) == payload_plaintext(
            uuid,
            data,
            password,
            Some(b),
        ),
{
}

} // verus!
