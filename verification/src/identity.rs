//! Long-term identities and the cryptographic envelope: signing, key exchange
//! and authenticated encryption. The primitives are those of `keynesis` and
//! `cryptoxide`; this module names their results and states the few facts
//! about them that the packet codecs rest on.

use vstd::prelude::*;

verus! {

/// Bytes of the seed that a private identity grows from.
pub const SEED_SIZE: usize = 32;

/// Bytes of a public identity: a verification key and its chain code.
pub const ID_SIZE: usize = 64;

/// Bytes of a signature.
pub const SIGNATURE_SIZE: usize = 64;

/// Bytes of a secret shared by two identities.
pub const SECRET_SIZE: usize = 32;

/// Bytes of the nonce of a narrow-waist packet.
pub const NONCE_SIZE: usize = 12;

/// Bytes of the nonce of a sealed frame.
pub const LINK_NONCE_SIZE: usize = 8;

/// Bytes of an authentication tag.
pub const TAG_SIZE: usize = 16;

/// The nonce of a narrow-waist packet: what the cipher takes.
pub type Nonce = [u8; 12];

/// The nonce of a sealed frame.
pub type LinkNonce = [u8; 8];

pub type Tag = [u8; 16];

pub type Signature = [u8; 64];

pub type SharedSecret = [u8; 32];

/// The public key and chain code of the hierarchical Ed25519 key that
/// `keynesis` derives from a seed.
pub uninterp spec fn identity_public(seed: Seq<u8>) -> Seq<u8>;

/// The signature that the key derived from `seed` puts on `message`.
pub uninterp spec fn identity_signature(seed: Seq<u8>, message: Seq<u8>) -> Seq<u8>;

/// Whether `signature` verifies for `message` under the public identity `public`.
pub uninterp spec fn signature_verifies(
    public: Seq<u8>,
    message: Seq<u8>,
    signature: Seq<u8>,
) -> bool;

/// The secret that the key derived from `seed` shares with the holder of `public`.
pub uninterp spec fn identity_exchange(seed: Seq<u8>, public: Seq<u8>) -> Seq<u8>;

/// Ciphertext and tag of ChaCha20-Poly1305 on `plaintext`, without associated data.
pub uninterp spec fn aead_sealed(key: Seq<u8>, nonce: Seq<u8>, plaintext: Seq<u8>) -> (
    Seq<u8>,
    Seq<u8>,
);

/// What ChaCha20-Poly1305 decryption returns: the plaintext where the tag
/// matches, nothing otherwise.
pub uninterp spec fn aead_opened(
    key: Seq<u8>,
    nonce: Seq<u8>,
    ciphertext: Seq<u8>,
    tag: Seq<u8>,
) -> Option<Seq<u8>>;

/// Derives the `keynesis` hierarchical key of `seed` (`Seed::into_rand_chacha`,
/// then `ed25519_hd::SecretKey::new`) and returns its `public_key()`: the 32
/// bytes of the verification key followed by the 32 bytes of the chain code.
/// The derivation is a function of the seed alone; the contract names it.
#[verifier::external_body]
fn hd_public(seed: &[u8; 32]) -> (out: [u8; 64])
    ensures
        out@ == identity_public(seed@),
{
    let rng = keynesis::Seed::from(*seed).into_rand_chacha();
    let key = keynesis::key::ed25519_hd::SecretKey::new(rng);
    let public = key.public_key();
    let mut out = [0u8; 64];
    out[..32].copy_from_slice(public.key().as_ref());
    out[32..].copy_from_slice(public.chain_code().as_ref());
    out
}

/// Calls `ed25519_hd::SecretKey::sign` with the key derived from `seed`. The
/// signature is deterministic; the contract names it.
#[verifier::external_body]
fn hd_sign(seed: &[u8; 32], message: &[u8]) -> (out: [u8; 64])
    ensures
        out@ == identity_signature(seed@, message@),
{
    let rng = keynesis::Seed::from(*seed).into_rand_chacha();
    let key = keynesis::key::ed25519_hd::SecretKey::new(rng);
    let signature = key.sign(message);
    let mut out = [0u8; 64];
    out.copy_from_slice(signature.as_ref());
    out
}

/// Calls `ed25519::PublicKey::verify` with the verification key of `public`.
/// Besides naming the result, the contract states that Ed25519 is correct: a
/// signature made by the key of a seed verifies under that seed's public
/// identity.
#[verifier::external_body]
fn hd_verify(public: &[u8; 64], message: &[u8], signature: &[u8; 64]) -> (ok: bool)
    ensures
        ok == signature_verifies(public@, message@, signature@),
        forall|seed: Seq<u8>|
            seed.len() == SEED_SIZE && public@ == identity_public(seed) && signature@
                == #[trigger] identity_signature(seed, message@) ==> ok,
{
    let public = keynesis::key::ed25519_hd::PublicKey::from(*public);
    let signature = keynesis::key::ed25519::Signature::from(*signature);
    public.key().verify(message, &signature)
}

/// Calls `ed25519_hd::SecretKey::exchange` with the key derived from `seed`.
/// Besides naming the result, the contract states that the exchange is
/// symmetric, as `keynesis` documents: both ends compute the same secret.
#[verifier::external_body]
fn hd_exchange(seed: &[u8; 32], public: &[u8; 64]) -> (out: [u8; 32])
    ensures
        out@ == identity_exchange(seed@, public@),
        forall|other: Seq<u8>|
            other.len() == SEED_SIZE && public@ == #[trigger] identity_public(other) ==> out@
                == identity_exchange(other, identity_public(seed@)),
{
    let rng = keynesis::Seed::from(*seed).into_rand_chacha();
    let key = keynesis::key::ed25519_hd::SecretKey::new(rng);
    let public = keynesis::key::ed25519_hd::PublicKey::from(*public);
    let secret = key.exchange(&public);
    let mut out = [0u8; 32];
    out.copy_from_slice(secret.as_ref());
    out
}

/// Calls `cryptoxide::chacha20poly1305::ChaCha20Poly1305::encrypt` with no
/// associated data. The ciphertext is as long as the plaintext.
#[verifier::external_body]
pub(crate) fn aead_seal(key: &[u8; 32], nonce: &[u8; 12], plaintext: &[u8]) -> (out: (
    Vec<u8>,
    [u8; 16],
))
    ensures
        (out.0@, out.1@) == aead_sealed(key@, nonce@, plaintext@),
        out.0@.len() == plaintext@.len(),
{
    let mut cipher = cryptoxide::chacha20poly1305::ChaCha20Poly1305::new(key, nonce, &[]);
    let mut ciphertext = vec![0u8; plaintext.len()];
    let mut tag = [0u8; 16];
    cipher.encrypt(plaintext, &mut ciphertext, &mut tag);
    (ciphertext, tag)
}

/// Calls `cryptoxide::chacha20poly1305::ChaCha20Poly1305::decrypt` with no
/// associated data, and hands the plaintext out only where the tag matched.
/// Besides naming the result, the contract states that decryption undoes
/// encryption under the same key and nonce, and keeps the length.
#[verifier::external_body]
pub(crate) fn aead_open(key: &[u8; 32], nonce: &[u8; 12], ciphertext: &[u8], tag: &[u8; 16]) -> (out:
    Option<Vec<u8>>)
    ensures
        out is Some == aead_opened(key@, nonce@, ciphertext@, tag@) is Some,
        out is Some ==> out->0@ == aead_opened(key@, nonce@, ciphertext@, tag@)->0,
        out is Some ==> out->0@.len() == ciphertext@.len(),
        forall|plaintext: Seq<u8>|
            (ciphertext@, tag@) == #[trigger] aead_sealed(key@, nonce@, plaintext) ==> out is Some
                && out->0@ == plaintext,
{
    let mut cipher = cryptoxide::chacha20poly1305::ChaCha20Poly1305::new(key, nonce, &[]);
    let mut plaintext = vec![0u8; ciphertext.len()];
    if cipher.decrypt(ciphertext, &mut plaintext, tag) {
        Some(plaintext)
    } else {
        None
    }
}

/// Calls `rand::random` for twelve bytes. Nothing is known of them.
#[verifier::external_body]
pub(crate) fn random_nonce() -> (out: [u8; 12]) {
    rand::random()
}

/// A random nonce for a frame: the first eight of twelve random bytes.
pub(crate) fn random_link_nonce() -> (out: LinkNonce) {
    let bytes = random_nonce();
    let mut out: LinkNonce = [0u8; 8];
    let mut i: usize = 0;
    while i < 8
        invariant
            i <= 8,
        decreases 8 - i,
    {
        out[i] = bytes[i];
        i += 1;
    }
    out
}

/// The number that the first four of `bytes` spell, read little-endian.
pub open spec fn number_spelt(bytes: Seq<u8>) -> int {
    bytes[0] as int + 256 * (bytes[1] as int) + 65536 * (bytes[2] as int) + 16777216 * (
    bytes[3] as int)
}

/// Reads the first four of `bytes` as a number, little-endian.
pub(crate) fn number_of(bytes: &[u8; 12]) -> (out: u32)
    ensures
        out == number_spelt(bytes@),
{
    let low: u32 = bytes[0] as u32 + 256 * (bytes[1] as u32);
    let high: u32 = bytes[2] as u32 + 256 * (bytes[3] as u32);
    low + 65536 * high
}

/// A random number to tell links or faces apart: four random bytes read
/// little-endian. Every number can come out, so nothing is promised of it.
pub(crate) fn random_number() -> (out: u32) {
    let bytes = random_nonce();
    number_of(&bytes)
}

/// The twelve-byte nonce that the cipher takes for a frame: four zero bytes,
/// then the eight bytes that the frame carries.
pub open spec fn cipher_nonce(nonce: Seq<u8>) -> Seq<u8> {
    seq![0u8, 0u8, 0u8, 0u8] + nonce
}

pub(crate) fn widen_nonce(nonce: &LinkNonce) -> (out: [u8; 12])
    ensures
        out@ == cipher_nonce(nonce@),
{
    let mut out = [0u8; 12];
    let mut i: usize = 0;
    while i < 8
        invariant
            i <= 8,
            forall|j: int| 0 <= j < 4 ==> out@[j] == 0,
            forall|j: int| 0 <= j < i ==> out@[4 + j] == nonce@[j],
        decreases 8 - i,
    {
        out[4 + i] = nonce[i];
        i += 1;
    }
    assert(out@ =~= cipher_nonce(nonce@));
    out
}

/// The public half of an identity.
#[derive(Clone, Copy, PartialEq, Eq, Debug)]
pub struct PublicIdentity {
    pub bytes: [u8; 64],
}

/// The private half of an identity: the seed that its keys are derived from.
#[derive(Clone, Copy, PartialEq, Eq, Debug)]
pub struct PrivateIdentity {
    pub seed: [u8; 32],
}

impl View for PublicIdentity {
    type V = Seq<u8>;

    open spec fn view(&self) -> Seq<u8> {
        self.bytes@
    }
}

impl View for PrivateIdentity {
    type V = Seq<u8>;

    open spec fn view(&self) -> Seq<u8> {
        self.seed@
    }
}

/// Two public identities in spec code are equal exactly when their bytes are.
pub proof fn lemma_public_identity_ext(a: PublicIdentity, b: PublicIdentity)
    ensures
        a@ == b@ <==> a == b,
{
    if a@ == b@ {
        assert(a.bytes =~= b.bytes);
    }
}

impl PublicIdentity {
    pub fn from_bytes(bytes: [u8; 64]) -> (id: Self)
        ensures
            id.bytes == bytes,
    {
        PublicIdentity { bytes }
    }

    /// Whether the two identities hold the same bytes.
    pub fn same(&self, other: &PublicIdentity) -> (eq: bool)
        ensures
            eq == (*self == *other),
    {
        let mut i: usize = 0;
        while i < 64
            invariant
                i <= 64,
                forall|j: int| 0 <= j < i ==> self.bytes@[j] == other.bytes@[j],
            decreases 64 - i,
        {
            if self.bytes[i] != other.bytes[i] {
                return false;
            }
            i += 1;
        }
        assert(self.bytes =~= other.bytes);
        true
    }

    /// Whether `signature` is the holder's signature on `message`.
    pub fn verify(&self, message: &[u8], signature: &Signature) -> (ok: bool)
        ensures
            ok == signature_verifies(self@, message@, signature@),
            forall|seed: Seq<u8>|
                seed.len() == SEED_SIZE && self@ == identity_public(seed) && signature@
                    == #[trigger] identity_signature(seed, message@) ==> ok,
    {
        hd_verify(&self.bytes, message, signature)
    }
}

impl PrivateIdentity {
    pub fn from_seed(seed: [u8; 32]) -> (id: Self)
        ensures
            id.seed == seed,
    {
        PrivateIdentity { seed }
    }

    /// The public identity that belongs to this private one.
    pub fn public_id(&self) -> (id: PublicIdentity)
        ensures
            id@ == identity_public(self@),
    {
        PublicIdentity { bytes: hd_public(&self.seed) }
    }

    /// Signs `message`.
    pub fn sign(&self, message: &[u8]) -> (signature: Signature)
        ensures
            signature@ == identity_signature(self@, message@),
    {
        hd_sign(&self.seed, message)
    }

    /// The secret shared with the holder of `other`. The holder computes the
    /// same secret from its own private identity and this one's public identity.
    pub fn shared_secret(&self, other: &PublicIdentity) -> (secret: SharedSecret)
        ensures
            secret@ == identity_exchange(self@, other@),
            forall|seed: Seq<u8>|
                seed.len() == SEED_SIZE && other@ == #[trigger] identity_public(seed) ==> secret@
                    == identity_exchange(seed, identity_public(self@)),
    {
        hd_exchange(&self.seed, &other.bytes)
    }
}

} // verus!
