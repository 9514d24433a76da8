use vstd::prelude::*;
use crate::puzzle::chain_view;
use crate::types::Work;
use rand_chacha::rand_core::SeedableRng;
use rand_chacha::{ChaCha20Rng, ChaChaRng};
use rsa::pkcs1::{DecodeRsaPrivateKey, DecodeRsaPublicKey, EncodeRsaPrivateKey, EncodeRsaPublicKey};
use rsa::pkcs8::LineEnding;
use rsa::{Pkcs1v15Encrypt, RsaPrivateKey, RsaPublicKey};
use crate::archive::puzzle::to_hash;

verus! {

/// The PKCS#1 PEM texts (private key, public key) of the 2048-bit RSA key
/// pair that `rsa` generates from a ChaCha generator seeded with `seed`, or
/// `None` where generating or encoding fails.
pub uninterp spec fn rsa_key_pems(seed: Seq<u8>) -> Option<(Seq<char>, Seq<char>)>;

/// Seeds `rand_chacha`'s `ChaChaRng` with `seed`, generates a 2048-bit key
/// with `rsa::RsaPrivateKey::new`, and writes the private key and its public
/// key with `to_pkcs1_pem` and CRLF line endings. The contract claims that
/// the result depends on the seed alone, named `rsa_key_pems`; the keys
/// themselves are left unsaid.
#[verifier::external_body]
fn rsa_key_pems_from_seed(seed: [u8; 32]) -> (r: Option<(String, String)>)
    ensures
        match r {
            Some(p) => rsa_key_pems(seed@) == Some((p.0@, p.1@)),
            None => rsa_key_pems(seed@) is None,
        },
{
    let mut rng = ChaChaRng::from_seed(seed);
    let private_key = RsaPrivateKey::new(&mut rng, 2048).ok()?;
    let private_pem = private_key.to_pkcs1_pem(LineEnding::CRLF).ok()?;
    let public_pem = private_key.to_public_key().to_pkcs1_pem(LineEnding::CRLF).ok()?;
    Some((private_pem.to_string(), public_pem))
}

/// The RSA key pair that a solution unlocks: generated from the result of the
/// solution's last chain, so that it depends on that result alone. `None`
/// where key generation fails. A solution must hold at least one chain.
pub fn solution_key_pems(work: &Work) -> (r: Option<(String, String)>)
    requires
        work@.len() > 0,
    ensures
        match r {
            Some(p) => rsa_key_pems(chain_view(work@.last()).2) == Some((p.0@, p.1@)),
            None => rsa_key_pems(chain_view(work@.last()).2) is None,
        },
{
    let key = work[work.len() - 1].2;
    rsa_key_pems_from_seed(key)
}

/// The PKCS#1 PEM texts (private key, public key), with LF line endings, of
/// the 2048-bit RSA key pair that `rsa` generates from a ChaCha20 generator
/// seeded with `seed`, or `None` where generating or encoding fails.
pub uninterp spec fn archive_rsa_pems(seed: Seq<u8>) -> Option<(Seq<char>, Seq<char>)>;

/// Seeds `rand_chacha`'s `ChaCha20Rng` with `seed`, generates a 2048-bit key
/// with `rsa::RsaPrivateKey::new`, and writes the private key and the public
/// key (`RsaPublicKey::from`) with `to_pkcs1_pem` and LF line endings. The
/// contract claims that the result depends on the seed alone, named
/// `archive_rsa_pems`; the keys themselves are left unsaid.
#[verifier::external_body]
fn archive_rsa_pems_from_seed(seed: [u8; 32]) -> (r: Option<(String, String)>)
    ensures
        match r {
            Some(p) => archive_rsa_pems(seed@) == Some((p.0@, p.1@)),
            None => archive_rsa_pems(seed@) is None,
        },
{
    let mut rng = ChaCha20Rng::from_seed(seed);
    let private_key = RsaPrivateKey::new(&mut rng, 2048).ok()?;
    let private_pem = private_key.to_pkcs1_pem(LineEnding::LF).ok()?;
    let public_pem = RsaPublicKey::from(&private_key).to_pkcs1_pem(LineEnding::LF).ok()?;
    Some((private_pem.to_string(), public_pem))
}

/// The key pair a new archive is created with, generated from `seed`:
/// (private key, public key) as PKCS#1 PEM with LF line endings. `None` where
/// key generation fails.
pub fn archive_key_pems(seed: [u8; 32]) -> (r: Option<(String, String)>)
    ensures
        match r {
            Some(p) => archive_rsa_pems(seed@) == Some((p.0@, p.1@)),
            None => archive_rsa_pems(seed@) is None,
        },
{
    archive_rsa_pems_from_seed(seed)
}

/// What `rsa` gives when the PKCS#1 PEM private key `private_pem` decrypts
/// `ciphertext` with PKCS#1 v1.5 padding, or `None` where the key cannot be
/// read or the decryption fails.
pub uninterp spec fn rsa_pkcs1v15_decrypt(private_pem: Seq<char>, ciphertext: Seq<u8>) -> Option<
    Seq<u8>,
>;

/// Reads the key with `RsaPrivateKey::from_pkcs1_pem` and decrypts with
/// `RsaPrivateKey::decrypt` and `Pkcs1v15Encrypt`, which uses no random
/// blinding. The contract claims that the result depends on the key text and
/// the ciphertext alone, named `rsa_pkcs1v15_decrypt`; the plaintext itself is
/// left unsaid.
#[verifier::external_body]
fn rsa_decrypt(private_pem: &str, ciphertext: &[u8]) -> (r: Option<Vec<u8>>)
    ensures
        match r {
            Some(k) => rsa_pkcs1v15_decrypt(private_pem@, ciphertext@) == Some(k@),
            None => rsa_pkcs1v15_decrypt(private_pem@, ciphertext@) is None,
        },
{
    let key = RsaPrivateKey::from_pkcs1_pem(private_pem).ok()?;
    key.decrypt(Pkcs1v15Encrypt, ciphertext).ok()
}

/// The file key kept in an `aes_keys/` entry: the RSA decryption of the
/// entry's data with the archive's private key, when that succeeds and gives
/// exactly 32 bytes; `None` otherwise.
pub fn file_key(private_pem: &str, encrypted_key: &[u8]) -> (r: Option<[u8; 32]>)
    ensures
        match rsa_pkcs1v15_decrypt(private_pem@, encrypted_key@) {
            Some(k) => if k.len() == 32 {
                r matches Some(a) && a@ == k
            } else {
                r is None
            },
            None => r is None,
        },
{
    match rsa_decrypt(private_pem, encrypted_key) {
        Some(k) => if k.len() == 32 {
            Some(to_hash(&k))
        } else {
            None
        },
        None => None,
    }
}

/// What `rsa` gives when the PKCS#1 PEM public key `public_pem` encrypts
/// `msg` with PKCS#1 v1.5 padding, drawing its padding from a ChaCha20
/// generator seeded with `seed`; `None` where the key cannot be read or the
/// message is too long for it.
pub uninterp spec fn rsa_pkcs1v15_encrypt(public_pem: Seq<char>, seed: Seq<u8>, msg: Seq<u8>) -> Option<
    Seq<u8>,
>;

/// Reads the key with `RsaPublicKey::from_pkcs1_pem`, seeds a `ChaCha20Rng`
/// with `seed`, and encrypts with `RsaPublicKey::encrypt` and
/// `Pkcs1v15Encrypt`. The contract claims that the result depends on the key
/// text, the seed and the message alone, named `rsa_pkcs1v15_encrypt`; the
/// ciphertext itself, and its length (the key's size in bytes), are left
/// unsaid.
#[verifier::external_body]
pub(crate) fn rsa_encrypt(public_pem: &str, seed: [u8; 32], msg: &[u8]) -> (r: Option<Vec<u8>>)
    ensures
        match r {
            Some(c) => rsa_pkcs1v15_encrypt(public_pem@, seed@, msg@) == Some(c@),
            None => rsa_pkcs1v15_encrypt(public_pem@, seed@, msg@) is None,
        },
{
    let key = RsaPublicKey::from_pkcs1_pem(public_pem).ok()?;
    let mut rng = ChaCha20Rng::from_seed(seed);
    key.encrypt(&mut rng, Pkcs1v15Encrypt, msg).ok()
}

} // verus!
