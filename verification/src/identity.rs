//! The ML-DSA-65 key pair that a node is known by.

use crate::peer_id::PeerId;
use crate::transport_address::copy_bytes;
use saorsa_pqc::pqc::MlDsaOperations;
use vstd::prelude::*;

verus! {

/// Size of an encoded ML-DSA-65 public key.
pub const PUBLIC_KEY_BYTES: usize = 1952;

/// Size of an encoded ML-DSA-65 signature.
pub const SIGNATURE_BYTES: usize = 3309;

/// Whether `MlDsa65::generate_keypair` of `saorsa_pqc` can hand out a public
/// and a secret key together.
pub uninterp spec fn key_pair(public: Seq<u8>, secret: Seq<u8>) -> bool;

/// What `MlDsa65::verify` of `saorsa_pqc` says of a public key, a message and a
/// signature; none where it fails.
pub uninterp spec fn signature_check(
    public: Seq<u8>,
    message: Seq<u8>,
    signature: Seq<u8>,
) -> Option<bool>;

/// What `fingerprint_public_key_bytes` of `saorsa_transport` makes of a public
/// key; none where it fails.
pub uninterp spec fn key_fingerprint(public: Seq<u8>) -> Option<Seq<u8>>;

/// Whether a text begins as what `PqcError` of `saorsa_pqc` says of a key pair that
/// could not be made.
pub open spec fn is_generation_fault(text: Seq<char>) -> bool {
    ||| "Key generation failed: "@.is_prefix_of(text)
    ||| "Invalid key size: "@.is_prefix_of(text)
}

/// Whether a text begins as what `PqcError` of `saorsa_pqc` says of a signature that
/// could not be made.
pub open spec fn is_signing_fault(text: Seq<char>) -> bool {
    ||| "Signing failed: "@.is_prefix_of(text)
    ||| "Cryptographic error: "@.is_prefix_of(text)
    ||| "Invalid key size: "@.is_prefix_of(text)
    ||| "Invalid signature size: "@.is_prefix_of(text)
}

/// `MlDsa65::generate_keypair` of `saorsa_pqc`: a public key of the standard
/// size with the secret key that belongs to it. Which pair comes is left to
/// chance, and so is a failure of the random source, whose text begins as the
/// crate's error type writes it.
#[verifier::external_body]
fn generate_keys() -> (keys: Result<(Vec<u8>, Vec<u8>), String>)
    ensures
        match keys {
            Ok(pair) => key_pair(pair.0@, pair.1@) && pair.0@.len() == PUBLIC_KEY_BYTES,
            Err(text) => is_generation_fault(text@),
        },
{
    let keys = saorsa_pqc::pqc::MlDsa65::new().generate_keypair().map_err(|e| e.to_string())?;
    Ok((keys.0.as_bytes().to_vec(), keys.1.as_bytes().to_vec()))
}

/// `MlDsa65::sign` of `saorsa_pqc`: a signature of the standard size that
/// `MlDsa65::verify` accepts under the public key that was generated with the
/// secret key. Which signature comes is left to chance, and so is a failure of
/// the random source. The text of a failure begins as the crate's error type
/// writes it.
#[verifier::external_body]
fn sign_message(secret: &[u8], message: &[u8]) -> (signature: Result<Vec<u8>, String>)
    ensures
        match signature {
            Ok(s) => s@.len() == SIGNATURE_BYTES && forall|public: Seq<u8>|
                key_pair(public, secret@) ==> #[trigger] signature_check(public, message@, s@)
                    == Some(true),
            Err(text) => is_signing_fault(text@),
        },
{
    let key = saorsa_pqc::pqc::types::MlDsaSecretKey::from_bytes(secret).map_err(
        |e| e.to_string(),
    )?;
    let signed = saorsa_pqc::pqc::MlDsa65::new().sign(&key, message).map_err(|e| e.to_string())?;
    Ok(signed.as_bytes().to_vec())
}

/// `MlDsa65::verify` of `saorsa_pqc`: whether a signature of a message is good
/// under a public key. The answer depends on the three alone; a key or a
/// signature of another than the standard size is a failure.
#[verifier::external_body]
pub(crate) fn check_signature(public: &[u8], message: &[u8], signature: &[u8]) -> (checked: Result<
    bool,
    String,
>)
    ensures
        match checked {
            Ok(good) => signature_check(public@, message@, signature@) == Some(good) && public@.len()
                == PUBLIC_KEY_BYTES && signature@.len() == SIGNATURE_BYTES,
            Err(_) => signature_check(public@, message@, signature@) is None,
        },
{
    let key = saorsa_pqc::pqc::types::MlDsaPublicKey::from_bytes(public).map_err(
        |e| e.to_string(),
    )?;
    let claim = saorsa_pqc::pqc::types::MlDsaSignature::from_bytes(signature).map_err(
        |e| e.to_string(),
    )?;
    saorsa_pqc::pqc::MlDsa65::new().verify(&key, message, &claim).map_err(|e| e.to_string())
}

/// `fingerprint_public_key_bytes` of `saorsa_transport`: the identity of a
/// public key. It depends on the key alone, and fails exactly for a key of
/// another than the standard size.
#[verifier::external_body]
pub(crate) fn fingerprint(public: &[u8]) -> (identity: Result<[u8; 32], String>)
    ensures
        match identity {
            Ok(bytes) => key_fingerprint(public@) == Some(bytes@) && public@.len()
                == PUBLIC_KEY_BYTES,
            Err(_) => key_fingerprint(public@) is None && public@.len() != PUBLIC_KEY_BYTES,
        },
{
    saorsa_transport::fingerprint_public_key_bytes(public).map_err(|e| e.to_string())
}

/// The peer identity that a public key stands for.
pub fn peer_id_from_public_key(public: &[u8]) -> (peer: Result<PeerId, String>)
    ensures
        match peer {
            Ok(p) => key_fingerprint(public@) == Some(p@) && public@.len() == PUBLIC_KEY_BYTES,
            Err(_) => key_fingerprint(public@) is None && public@.len() != PUBLIC_KEY_BYTES,
        },
{
    match fingerprint(public) {
        Ok(bytes) => Ok(PeerId::from_bytes(bytes)),
        Err(error) => Err(error),
    }
}

/// Whether this can come of signing a message with the key pair of a public key:
/// a signature of the standard size that is good for both, or a failure of the
/// signer in its own words.
pub open spec fn can_sign(
    public: Seq<u8>,
    message: Seq<u8>,
    outcome: Result<Vec<u8>, String>,
) -> bool {
    match outcome {
        Ok(s) => s@.len() == SIGNATURE_BYTES && signature_check(public, message, s@) == Some(true),
        Err(text) => is_signing_fault(text@),
    }
}

/// The key pair of a node and the identity that it stands for.
pub struct NodeIdentity {
    public: Vec<u8>,
    secret: Vec<u8>,
    peer: PeerId,
}

impl NodeIdentity {
    #[verifier::type_invariant]
    spec fn consistent(self) -> bool {
        &&& key_pair(self.public@, self.secret@)
        &&& key_fingerprint(self.public@) == Some(self.peer@)
        &&& self.public@.len() == PUBLIC_KEY_BYTES
    }

    /// The encoded public key.
    pub closed spec fn public(self) -> Seq<u8> {
        self.public@
    }

    /// The identity that the public key stands for.
    pub closed spec fn owner(self) -> PeerId {
        self.peer
    }

    /// The identity of a key pair that was made; the failure to make one is
    /// handed on.
    fn from_generated(keys: Result<(Vec<u8>, Vec<u8>), String>) -> (identity: Result<Self, String>)
        requires
            keys matches Ok(pair) ==> key_pair(pair.0@, pair.1@) && pair.0@.len()
                == PUBLIC_KEY_BYTES,
        ensures
            match keys {
                Ok(pair) => identity matches Ok(node) && node.public() == pair.0@
                    && key_fingerprint(pair.0@) == Some(node.owner()@),
                Err(error) => identity == Err::<NodeIdentity, String>(error),
            },
    {
        let (public, secret) = match keys {
            Ok(keys) => keys,
            Err(error) => {
                return Err(error);
            },
        };
        match peer_id_from_public_key(&public) {
            Ok(peer) => Ok(NodeIdentity { public, secret, peer }),
            Err(error) => Err(error),
        }
    }

    /// Make a new key pair.
    ///
    /// The error is the text of the failure to make one, which the random source
    /// alone decides.
    pub fn generate() -> (identity: Result<Self, String>)
        ensures
            match identity {
                Ok(node) => node.public().len() == PUBLIC_KEY_BYTES && key_fingerprint(
                    node.public(),
                ) == Some(node.owner()@),
                Err(text) => is_generation_fault(text@),
            },
    {
        NodeIdentity::from_generated(generate_keys())
    }

    /// The identity that the public key stands for.
    pub fn peer_id(&self) -> (peer: PeerId)
        ensures
            peer == self.owner(),
            key_fingerprint(self.public()) == Some(peer@),
    {
        proof {
            use_type_invariant(self);
        }
        self.peer
    }

    /// The encoded public key.
    pub fn public_key(&self) -> (bytes: Vec<u8>)
        ensures
            bytes@ == self.public(),
            bytes@.len() == PUBLIC_KEY_BYTES,
    {
        proof {
            use_type_invariant(self);
        }
        copy_bytes(&self.public)
    }

    /// Sign a message.
    ///
    /// Whatever signature comes, it is good under the public key. The error is
    /// the text of the failure to make one.
    pub fn sign(&self, message: &[u8]) -> (signature: Result<Vec<u8>, String>)
        ensures
            can_sign(self.public(), message@, signature),
    {
        proof {
            use_type_invariant(self);
        }
        sign_message(&self.secret, message)
    }
}

} // verus!
