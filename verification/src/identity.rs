//! The user's identity: a Noise static keypair and an Ed25519 signing keypair.

use vstd::prelude::*;
use crate::noise::NoiseError;
use crate::noise::{generate_keypair, parse_params};

verus! {

/// The Ed25519 public key derived from a 32-byte secret key.
pub uninterp spec fn spec_ed25519_public_key(secret: Seq<u8>) -> Seq<u8>;

/// A 64-byte Ed25519 keypair (secret key, then public key) whose public half is
/// the one derived from its secret half.
pub open spec fn consistent_keypair(bytes: Seq<u8>) -> bool {
    bytes.len() == 64 && bytes.subrange(32, 64) == spec_ed25519_public_key(bytes.subrange(0, 32))
}

/// A Noise static keypair.
#[derive(Debug, Clone)]
pub struct SerializableKeypair {
    pub private: Vec<u8>,
    pub public: Vec<u8>,
}

/// An Ed25519 keypair as its 64 bytes: the secret key, then the public key.
#[derive(Debug, Clone)]
pub struct SerializableSigningKeypair {
    pub keypair_bytes: [u8; 64],
}

/// A user's identity, holding the keys for encryption and for signing.
#[derive(Debug, Clone)]
pub struct UserIdentity {
    /// Keypair for the Noise protocol (XX pattern).
    pub noise_keypair: SerializableKeypair,
    /// Keypair for signing messages and announcements.
    pub signing_keypair: SerializableSigningKeypair,
}

impl UserIdentity {
    /// The signing keypair's public half is derived from its secret half.
    pub open spec fn wf(&self) -> bool {
        consistent_keypair(self.signing_keypair.keypair_bytes@)
    }
}

/// Trusted: `ed25519_dalek::SigningKey::generate` with the operating system's
/// random source, returned by `SigningKey::to_keypair_bytes`. The secret is
/// random; the crate guarantees that the public half is the key derived from
/// it.
#[verifier::external_body]
fn generate_signing_keypair() -> (k: [u8; 64])
    ensures
        k@.subrange(32, 64) == spec_ed25519_public_key(k@.subrange(0, 32)),
{
    let mut csprng = rand::rngs::OsRng {};
    ed25519_dalek::SigningKey::generate(&mut csprng).to_keypair_bytes()
}

/// Trusted: `ed25519_dalek::SigningKey::from_keypair_bytes`, then the verifying
/// key's bytes. The crate accepts the bytes exactly when the stored public key
/// equals the one derived from the secret key, and the verifying key is then
/// that public key.
#[verifier::external_body]
pub(crate) fn verifying_key_of(keypair: &[u8; 64]) -> (r: Option<[u8; 32]>)
    ensures
        (r matches Some(_)) <==> keypair@.subrange(32, 64) == spec_ed25519_public_key(
            keypair@.subrange(0, 32),
        ),
        r matches Some(v) ==> v@ == keypair@.subrange(32, 64),
{
    match ed25519_dalek::SigningKey::from_keypair_bytes(keypair) {
        Ok(k) => Some(k.verifying_key().to_bytes()),
        Err(_) => None,
    }
}

impl UserIdentity {
    /// Makes a new identity with fresh keypairs: a Noise (X25519) keypair of
    /// 32-byte keys and a consistent Ed25519 keypair. It always succeeds.
    pub fn generate() -> (r: Result<UserIdentity, NoiseError>)
        ensures
            r matches Ok(id) && id.wf() && id.noise_keypair.private@.len() == 32
                && id.noise_keypair.public@.len() == 32 && id.noise_keypair.public@
                == crate::noise::spec_x25519_public_key(id.noise_keypair.private@),
    {
        let params = match parse_params(crate::noise::NOISE_PARAMS) {
            Ok(p) => p,
            Err(e) => return Err(NoiseError::Snow(e)),
        };
        let (private, public) = match generate_keypair(&params) {
            Ok(k) => k,
            Err(e) => return Err(NoiseError::Snow(e)),
        };
        let keypair_bytes = generate_signing_keypair();
        Ok(
            UserIdentity {
                noise_keypair: SerializableKeypair { private, public },
                signing_keypair: SerializableSigningKeypair { keypair_bytes },
            },
        )
    }

    /// Checks that the signing keypair's halves belong together.
    pub fn is_consistent(&self) -> (r: bool)
        ensures
            r == self.wf(),
    {
        verifying_key_of(&self.signing_keypair.keypair_bytes).is_some()
    }
}

} // verus!
