//! Key and entropy management: a seeded deterministic random bit generator,
//! secp256k1 key pairs, ECDSA signatures and SHA-256 digests.
use k256::ecdsa::signature::Signer;
use k256::ecdsa::{Signature, SigningKey};
use k256::sha2::{Digest, Sha256};
use rand::rngs::StdRng;
use rand::{RngCore, SeedableRng};
use vstd::prelude::*;

verus! {

/// Length of a generated credential id.
pub const CREDENTIAL_ID_LEN: usize = 32;

/// Length of a secret scalar.
pub const SECRET_KEY_LEN: usize = 32;

/// Length of an uncompressed SEC1 public key.
pub const PUBLIC_KEY_LEN: usize = 65;

#[verifier::external_type_specification]
#[verifier::external_body]
pub struct ExStdRng(StdRng);

/// SHA-256 of a byte string.
pub uninterp spec fn sha256_of(data: Seq<u8>) -> Seq<u8>;

/// The DER-encoded deterministic ECDSA signature of `data` under the secret
/// scalar `secret`; `None` when `secret` is not a valid scalar.
pub uninterp spec fn ecdsa_signature(secret: Seq<u8>, data: Seq<u8>) -> Option<Seq<u8>>;

/// The `n` bytes that a generator keyed by `seed` hands out after the draws
/// `draws` (see [`Keys::draws`]).
pub uninterp spec fn drawn_bytes(seed: Seq<u8>, draws: Seq<int>, n: nat) -> Seq<u8>;

/// The secret scalar, in 32 bytes, that a generator keyed by `seed` yields
/// for a new signing key after the draws `draws`.
pub uninterp spec fn drawn_secret(seed: Seq<u8>, draws: Seq<int>) -> Seq<u8>;

/// The uncompressed SEC1 encoding of the public key of the secret scalar `secret`.
pub uninterp spec fn public_key_of(secret: Seq<u8>) -> Seq<u8>;

/// How a key-pair draw is recorded in [`Keys::draws`].
pub open spec fn key_pair_draw() -> int {
    -1
}

/// Relies on rand's `StdRng::from_seed`: a ChaCha12 generator keyed by the
/// seed, whose output depends on the seed and the draws made from it alone.
#[verifier::external_body]
fn seeded_keys(seed: [u8; 32]) -> (r: Keys)
    ensures
        r.seed() == seed@,
        r.draws() == Seq::<int>::empty(),
{
    Keys { rng: StdRng::from_seed(seed), seed: Ghost(seed@), draws: Ghost(Seq::empty()) }
}

/// Relies on `RngCore::fill_bytes` of rand's `StdRng`: fills the whole buffer
/// with the generator's next output.
#[verifier::external_body]
fn draw_bytes(keys: &mut Keys, n: usize) -> (r: Vec<u8>)
    ensures
        r@ == drawn_bytes(old(keys).seed(), old(keys).draws(), n as nat),
        r@.len() == n,
        final(keys).seed() == old(keys).seed(),
        final(keys).draws() == old(keys).draws().push(n as int),
{
    let mut v = vec![0u8; n];
    keys.rng.fill_bytes(&mut v);
    keys.draws = Ghost(keys.draws@.push(n as int));
    v
}

/// Relies on k256's `SigningKey::random` (a non-zero scalar drawn from the
/// generator), `to_bytes` (the scalar in 32 bytes) and the uncompressed SEC1
/// encoding of its verifying key (65 bytes), which the scalar alone decides.
#[verifier::external_body]
fn draw_signing_key(keys: &mut Keys) -> (r: (Vec<u8>, Vec<u8>))
    ensures
        r.0@ == drawn_secret(old(keys).seed(), old(keys).draws()),
        r.1@ == public_key_of(r.0@),
        r.0@.len() == SECRET_KEY_LEN,
        r.1@.len() == PUBLIC_KEY_LEN,
        final(keys).seed() == old(keys).seed(),
        final(keys).draws() == old(keys).draws().push(key_pair_draw()),
{
    let key = SigningKey::random(&mut keys.rng);
    let public = key.verifying_key().to_encoded_point(false);
    keys.draws = Ghost(keys.draws@.push(key_pair_draw()));
    (key.to_bytes().to_vec(), public.as_bytes().to_vec())
}

/// Relies on k256's `SigningKey::from_slice` and its RFC 6979 `try_sign`
/// (SHA-256 of the message, deterministic nonce), encoded as DER.
#[verifier::external_body]
fn ecdsa_sign(secret: &[u8], data: &[u8]) -> (r: Option<Vec<u8>>)
    ensures
        match r {
            Some(s) => ecdsa_signature(secret@, data@) == Some(s@),
            None => ecdsa_signature(secret@, data@) is None,
        },
{
    let key = SigningKey::from_slice(secret).ok()?;
    let sig: Signature = key.try_sign(data).ok()?;
    Some(sig.to_der().as_bytes().to_vec())
}

/// Relies on `Sha256::digest` of the sha2 crate, as re-exported by k256.
#[verifier::external_body]
fn sha256_digest(data: &[u8]) -> (r: Vec<u8>)
    ensures
        r@ == sha256_of(data@),
        r@.len() == 32,
{
    Sha256::digest(data).to_vec()
}

/// A freshly generated asymmetric key pair.
pub struct KeyPair {
    pub secret: Vec<u8>,
    pub public: Vec<u8>,
}

impl KeyPair {
    pub open spec fn wf(&self) -> bool {
        self.secret@.len() == SECRET_KEY_LEN && self.public@.len() == PUBLIC_KEY_LEN
    }
}

/// The key manager: every random value it hands out comes from a deterministic
/// random bit generator seeded once from conditioned hardware entropy.
pub struct Keys {
    rng: StdRng,
    seed: Ghost<Seq<u8>>,
    draws: Ghost<Seq<int>>,
}

impl Keys {
    /// The seed the generator was keyed with.
    pub closed spec fn seed(&self) -> Seq<u8> {
        self.seed@
    }

    /// The draws made so far, in order: a byte count for each draw of bytes,
    /// [`key_pair_draw`] for each key pair.
    pub closed spec fn draws(&self) -> Seq<int> {
        self.draws@
    }

    /// A key manager whose generator is keyed by `seed`.
    pub fn new(seed: [u8; 32]) -> (r: Keys)
        ensures
            r.seed() == seed@,
            r.draws() == Seq::<int>::empty(),
    {
        seeded_keys(seed)
    }

    /// `n` random bytes: the generator's next output.
    pub fn random_bytes(&mut self, n: usize) -> (r: Vec<u8>)
        ensures
            r@ == drawn_bytes(old(self).seed(), old(self).draws(), n as nat),
            r@.len() == n,
            final(self).seed() == old(self).seed(),
            final(self).draws() == old(self).draws().push(n as int),
    {
        draw_bytes(self, n)
    }

    /// A random credential identifier.
    pub fn random_id(&mut self) -> (r: Vec<u8>)
        ensures
            r@ == drawn_bytes(old(self).seed(), old(self).draws(), CREDENTIAL_ID_LEN as nat),
            r@.len() == CREDENTIAL_ID_LEN,
            final(self).seed() == old(self).seed(),
            final(self).draws() == old(self).draws().push(CREDENTIAL_ID_LEN as int),
    {
        draw_bytes(self, CREDENTIAL_ID_LEN)
    }

    /// A fresh secp256k1 key pair.
    pub fn new_key_pair(&mut self) -> (r: KeyPair)
        ensures
            r.wf(),
            r.secret@ == drawn_secret(old(self).seed(), old(self).draws()),
            r.public@ == public_key_of(r.secret@),
            final(self).seed() == old(self).seed(),
            final(self).draws() == old(self).draws().push(key_pair_draw()),
    {
        let (secret, public) = draw_signing_key(self);
        KeyPair { secret, public }
    }
}

/// Signs `data` with the secret scalar `secret`.
pub fn sign(secret: &[u8], data: &[u8]) -> (r: Option<Vec<u8>>)
    ensures
        match r {
            Some(s) => ecdsa_signature(secret@, data@) == Some(s@),
            None => ecdsa_signature(secret@, data@) is None,
        },
{
    ecdsa_sign(secret, data)
}

/// SHA-256 of `data`, as used for relying-party ids.
pub fn sha256(data: &[u8]) -> (r: Vec<u8>)
    ensures
        r@ == sha256_of(data@),
        r@.len() == 32,
{
    sha256_digest(data)
}

} // verus!
