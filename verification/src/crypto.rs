use vstd::prelude::*;

use ecdsa::signature::{Signer, Verifier};
use k256::Secp256k1;

verus! {

/// Whether a byte string is a secp256k1 secret scalar that `SigningKey::from_slice` accepts.
pub uninterp spec fn secret_key_is_valid(key: Seq<u8>) -> bool;

/// The compressed SEC1 encoding of the public key that belongs to a secret key.
pub uninterp spec fn public_key_of(key: Seq<u8>) -> Seq<u8>;

/// The 64-byte ECDSA/secp256k1 signature (RFC 6979, SHA-256 of the message) by a secret
/// key, or nothing where the deterministic nonce gives a zero `r` or `s`.
pub uninterp spec fn ecdsa_sign(key: Seq<u8>, msg: Seq<u8>) -> Option<Seq<u8>>;

/// Whether an ECDSA/secp256k1 signature over a message verifies against an encoded public key.
pub uninterp spec fn ecdsa_verifies(pubkey: Seq<u8>, msg: Seq<u8>, sig: Seq<u8>) -> bool;

/// Calls `SigningKey::<Secp256k1>::random` with `rand::thread_rng()` and returns the key's bytes.
/// The contract claims only that the bytes form a valid secret key: the crate draws a
/// nonzero scalar below the group order, which `from_slice` accepts back.
#[verifier::external_body]
fn random_secret_key() -> (r: [u8; 32])
    ensures
        secret_key_is_valid(r@),
{
    ecdsa::SigningKey::<Secp256k1>::random(&mut rand::thread_rng()).to_bytes().into()
}

/// Calls `SigningKey::<Secp256k1>::from_slice` and reports whether it accepted the bytes.
/// The contract also claims that 32 zero bytes are refused: `SecretKey::from_bytes`
/// rejects the zero scalar.
#[verifier::external_body]
fn secret_key_check(bytes: &[u8]) -> (b: bool)
    ensures
        b == secret_key_is_valid(bytes@),
        bytes@.len() == 32 && (forall|i: int| 0 <= i < 32 ==> bytes@[i] == 0) ==> !b,
{
    ecdsa::SigningKey::<Secp256k1>::from_slice(bytes).is_ok()
}

/// Calls `SigningKey::verifying_key` on the key the bytes hold and encodes the point with
/// `to_encoded_point(true)`. The contract claims the 33 bytes are the named public key.
#[verifier::external_body]
fn derive_public_key(key: &[u8; 32]) -> (r: [u8; 33])
    requires
        secret_key_is_valid(key@),
    ensures
        r@ == public_key_of(key@),
{
    let sk = ecdsa::SigningKey::<Secp256k1>::from_slice(key).unwrap();
    sk.verifying_key().to_encoded_point(true).as_bytes().try_into().unwrap()
}

/// Calls `Signer::try_sign` of `SigningKey::<Secp256k1>` and returns `Signature::to_bytes`,
/// or nothing when signing fails. The contract claims that the outcome is the named one
/// (RFC 6979 is deterministic, so it depends on the key and the message alone) and that a
/// signature verifies against the key's own public key (k256 signs with a low `s`, which
/// its verifier requires).
#[verifier::external_body]
fn sign_message(key: &[u8; 32], msg: &[u8]) -> (r: Option<[u8; 64]>)
    requires
        secret_key_is_valid(key@),
    ensures
        r is Some <==> ecdsa_sign(key@, msg@) is Some,
        r matches Some(s) ==> ecdsa_sign(key@, msg@) == Some(s@),
        r matches Some(s) ==> ecdsa_verifies(public_key_of(key@), msg@, s@),
{
    let sk = ecdsa::SigningKey::<Secp256k1>::from_slice(key).unwrap();
    match sk.try_sign(msg) {
        Ok(sig) => {
            let sig: ecdsa::Signature<Secp256k1> = sig;
            Some(sig.to_bytes().into())
        },
        Err(_) => None,
    }
}

/// Calls `VerifyingKey::<Secp256k1>::from_sec1_bytes`, `Signature::from_slice` and
/// `Verifier::verify`; bytes that either parser refuses count as a failed verification.
#[verifier::external_body]
fn verify_message(pubkey: &[u8; 33], msg: &[u8], sig: &[u8; 64]) -> (b: bool)
    ensures
        b == ecdsa_verifies(pubkey@, msg@, sig@),
{
    let vk = match ecdsa::VerifyingKey::<Secp256k1>::from_sec1_bytes(pubkey) {
        Ok(vk) => vk,
        Err(_) => return false,
    };
    let s = match ecdsa::Signature::<Secp256k1>::from_slice(sig) {
        Ok(s) => s,
        Err(_) => return false,
    };
    vk.verify(msg, &s).is_ok()
}

/// A secp256k1 public key in compressed SEC1 form.
#[derive(Clone, Copy, Debug)]
pub struct PublicKey(pub [u8; 33]);

/// A 64-byte ECDSA signature (`r` then `s`).
#[derive(Clone, Copy, Debug)]
pub struct Signature(pub [u8; 64]);

/// A secp256k1 secret key.
#[derive(Clone, Copy, Debug)]
pub struct PrivateKey {
    key: [u8; 32],
}

impl PrivateKey {
    #[verifier::type_invariant]
    spec fn valid(self) -> bool {
        secret_key_is_valid(self.key@)
    }

    /// The 32 bytes of the secret scalar.
    pub closed spec fn bytes(self) -> Seq<u8> {
        self.key@
    }

    /// A fresh random key.
    pub fn new_key() -> (r: PrivateKey)
        ensures
            secret_key_is_valid(r.bytes()),
    {
        PrivateKey { key: random_secret_key() }
    }

    /// The key that the bytes hold, if they form a valid secret key.
    pub fn from_bytes(bytes: [u8; 32]) -> (r: Option<PrivateKey>)
        ensures
            r is Some <==> secret_key_is_valid(bytes@),
            r matches Some(k) ==> k.bytes() == bytes@,
            (forall|i: int| 0 <= i < 32 ==> bytes@[i] == 0) ==> r is None,
    {
        if secret_key_check(&bytes) {
            Some(PrivateKey { key: bytes })
        } else {
            None
        }
    }

    /// The 32 bytes of the secret scalar.
    pub fn to_bytes(&self) -> (r: [u8; 32])
        ensures
            r@ == self.bytes(),
            secret_key_is_valid(r@),
    {
        proof {
            use_type_invariant(self);
        }
        self.key
    }

    /// The public key that belongs to this key.
    pub fn public_key(&self) -> (r: PublicKey)
        ensures
            r.0@ == public_key_of(self.bytes()),
    {
        proof {
            use_type_invariant(self);
        }
        PublicKey(derive_public_key(&self.key))
    }
}

/// Reading back the bytes of a key gives the same key: where `from_bytes` answered `r`
/// for the bytes that `to_bytes` gave of `k` (which are a valid secret key), `r` holds
/// `k` itself.
pub proof fn lemma_key_bytes_round_trip(k: PrivateKey, r: Option<PrivateKey>)
    requires
        secret_key_is_valid(k.bytes()),
        r is Some <==> secret_key_is_valid(k.bytes()),
        r matches Some(back) ==> back.bytes() == k.bytes(),
    ensures
        r == Some(k),
{
    let back = r->0;
    assert(back.key =~= k.key);
}

impl PublicKey {
    /// Equality of two public keys.
    pub fn same(&self, other: &PublicKey) -> (b: bool)
        ensures
            b == (*self == *other),
    {
        let mut i: usize = 0;
        while i < 33
            invariant
                0 <= i <= 33,
                forall|j: int| 0 <= j < i ==> self.0[j] == other.0[j],
            decreases 33 - i,
        {
            if self.0[i] != other.0[i] {
                return false;
            }
            i = i + 1;
        }
        assert(self.0 =~= other.0);
        true
    }
}

impl Signature {
    /// Whether this signature over the bytes of `output_hash` verifies against `public_key`.
    pub open spec fn verifies(self, output_hash: crate::sha256::Hash, public_key: PublicKey) -> bool {
        ecdsa_verifies(public_key.0@, output_hash.bytes(), self.0@)
    }

    /// Whether signing the bytes of `output_hash` with the key succeeds.
    pub open spec fn signs(output_hash: crate::sha256::Hash, private_key: PrivateKey) -> bool {
        ecdsa_sign(private_key.bytes(), output_hash.bytes()) is Some
    }

    /// Signs the bytes of a transaction output's hash; nothing when signing fails.
    pub fn sign_output(output_hash: &crate::sha256::Hash, private_key: &PrivateKey) -> (r: Option<Signature>)
        ensures
            r is Some <==> Signature::signs(*output_hash, *private_key),
            r matches Some(s) ==> ecdsa_sign(private_key.bytes(), output_hash.bytes()) == Some(s.0@),
            r matches Some(s) ==> ecdsa_verifies(public_key_of(private_key.bytes()), output_hash.bytes(), s.0@),
    {
        proof {
            use_type_invariant(private_key);
        }
        let msg = output_hash.as_bytes();
        match sign_message(&private_key.key, &msg) {
            Some(bytes) => Some(Signature(bytes)),
            None => None,
        }
    }

    /// Whether this signature over the bytes of `output_hash` verifies against `public_key`.
    pub fn verify(&self, output_hash: &crate::sha256::Hash, public_key: &PublicKey) -> (b: bool)
        ensures
            b == self.verifies(*output_hash, *public_key),
    {
        let msg = output_hash.as_bytes();
        verify_message(&public_key.0, &msg, &self.0)
    }
}

} // verus!
