//! Agents and their keys.

use ed25519_dalek::{Signer, Verifier};
use vstd::prelude::*;

use crate::block;
use crate::error::Error;
use crate::hexadecimal as hex;
use crate::hexadecimal::{decode_hex_32, encode_hex};

verus! {

/// An Ed25519 secret key.
#[derive(Clone, Copy)]
pub struct SigningKey(pub [u8; 32]);

/// An Ed25519 public key, in the encoding that travels.
#[derive(Clone, Copy, Debug, PartialEq, Eq, Hash)]
pub struct VerifyingKey(pub [u8; 32]);

/// An Ed25519 signature.
#[derive(Clone, Copy, Debug, PartialEq, Eq)]
pub struct Signature(pub [u8; 64]);

impl View for SigningKey {
    type V = Seq<u8>;

    open spec fn view(&self) -> Seq<u8> {
        self.0@
    }
}

impl View for VerifyingKey {
    type V = Seq<u8>;

    open spec fn view(&self) -> Seq<u8> {
        self.0@
    }
}

impl View for Signature {
    type V = Seq<u8>;

    open spec fn view(&self) -> Seq<u8> {
        self.0@
    }
}

/// The public key that `ed25519_dalek::SigningKey::verifying_key` gives for a
/// secret key.
pub uninterp spec fn ed25519_public(secret: Seq<u8>) -> Seq<u8>;

/// The signature that `ed25519_dalek::SigningKey::sign` makes.
pub uninterp spec fn ed25519_signature(secret: Seq<u8>, message: Seq<u8>) -> Seq<u8>;

/// What `ed25519_dalek::VerifyingKey` says of a signature: nothing where the
/// key is no key, and otherwise whether the signature is valid.
pub uninterp spec fn ed25519_check(
    key: Seq<u8>,
    message: Seq<u8>,
    signature: Seq<u8>,
) -> Option<bool>;

/// `ed25519_dalek::SigningKey::verifying_key`: the public key, a function of the
/// secret key alone.
#[verifier::external_body]
fn public_key(secret: &[u8; 32]) -> (key: [u8; 32])
    ensures
        key@ == ed25519_public(secret@),
{
    ed25519_dalek::SigningKey::from_bytes(secret).verifying_key().to_bytes()
}

/// `ed25519_dalek::SigningKey::sign`: a deterministic signature, which the
/// public key of the same secret key accepts for the same message.
#[verifier::external_body]
fn make_signature(secret: &[u8; 32], message: &[u8]) -> (signature: [u8; 64])
    ensures
        signature@ == ed25519_signature(secret@, message@),
        ed25519_check(ed25519_public(secret@), message@, signature@) == Some(true),
{
    ed25519_dalek::SigningKey::from_bytes(secret).sign(message).to_bytes()
}

/// `ed25519_dalek::VerifyingKey::from_bytes`, and `verify` on the key that it
/// gives: a function of the key, the message and the signature.
#[verifier::external_body]
fn check_signature(key: &[u8; 32], message: &[u8], signature: &[u8; 64]) -> (r: Option<bool>)
    ensures
        r == ed25519_check(key@, message@, signature@),
{
    match ed25519_dalek::VerifyingKey::from_bytes(key) {
        Ok(k) => Some(k.verify(message, &ed25519_dalek::Signature::from_bytes(signature)).is_ok()),
        Err(_) => None,
    }
}

impl SigningKey {
    pub fn from_bytes(bytes: &[u8; 32]) -> (key: Self)
        ensures
            key@ == bytes@,
    {
        SigningKey(*bytes)
    }

    pub fn verifying_key(&self) -> (key: VerifyingKey)
        ensures
            key@ == ed25519_public(self@),
    {
        VerifyingKey(public_key(&self.0))
    }

    /// Signs a message. The public key of this key accepts the signature.
    pub fn sign(&self, message: &[u8]) -> (signature: Signature)
        ensures
            signature@ == ed25519_signature(self@, message@),
            ed25519_check(ed25519_public(self@), message@, signature@) == Some(true),
    {
        Signature(make_signature(&self.0, message))
    }
}

impl Signature {
    pub fn from_bytes(bytes: &[u8; 64]) -> (signature: Self)
        ensures
            signature@ == bytes@,
    {
        Signature(*bytes)
    }

    pub fn to_bytes(&self) -> (bytes: [u8; 64])
        ensures
            bytes@ == self@,
    {
        self.0
    }
}

/// Canonical agent identifier: an Ed25519 public key.
///
/// Agents own their state through their keypair, not their network location.
/// All state mutations are attributable to an `AgentId`, and the id remains
/// stable across restarts, migrations, and infrastructure changes.
#[derive(Clone, Copy, Debug, PartialEq, Eq, Hash)]
pub struct AgentId(pub [u8; 32]);

impl View for AgentId {
    type V = Seq<u8>;

    open spec fn view(&self) -> Seq<u8> {
        self.0@
    }
}

/// What is made of a signature check: an unusable key, a signature that does
/// not fit, or success.
pub open spec fn verdict_is(check: Option<bool>, r: Result<(), Error>) -> bool {
    match check {
        None => r matches Err(e) && e is InvalidAgentKey,
        Some(false) => r matches Err(e) && e is BadSignature,
        Some(true) => r is Ok,
    }
}

/// Turns the outcome of a signature check into a result.
pub fn verdict(check: Option<bool>) -> (r: Result<(), Error>)
    ensures
        verdict_is(check, r),
{
    match check {
        None => Err(Error::InvalidAgentKey),
        Some(valid) => if valid {
            Ok(())
        } else {
            Err(Error::BadSignature)
        },
    }
}

impl AgentId {
    pub fn from_verifying_key(key: &VerifyingKey) -> (id: Self)
        ensures
            id@ == key@,
    {
        AgentId(key.0)
    }

    /// Verify a signature made by this agent over `message`.
    pub fn verify(&self, message: &[u8], signature: &Signature) -> (r: Result<(), Error>)
        ensures
            verdict_is(ed25519_check(self@, message@, signature@), r),
    {
        verdict(check_signature(&self.0, message, &signature.0))
    }

    /// Whether two ids are the same id.
    pub fn same(&self, other: &AgentId) -> (r: bool)
        ensures
            r == (self@ == other@),
            r == (*self == *other),
    {
        proof {
            if self@ == other@ {
                assert(self.0 =~= other.0);
            }
        }
        crate::bytes::same_bytes(self.0.as_slice(), other.0.as_slice())
    }

    /// The id as sixty-four lowercase hexadecimal digits.
    pub fn to_string(&self) -> (text: String)
        ensures
            text@ == hex::hex_text(self@),
    {
        encode_hex(self.0.as_slice())
    }

    /// Reads an id written as sixty-four hexadecimal digits of either case.
    pub fn parse(text: &str) -> (r: Result<Self, Error>)
        ensures
            match r {
                Ok(id) => block::id_of_text(text@) == Some(id@),
                Err(e) => block::id_of_text(text@) is None && (e matches Error::InvalidId(s) && s@
                    == text@),
            },
    {
        match decode_hex_32(text) {
            Some(raw) => Ok(AgentId(raw)),
            None => Err(Error::InvalidId(text.to_owned())),
        }
    }
}

impl std::str::FromStr for AgentId {
    type Err = Error;

    fn from_str(s: &str) -> (r: Result<Self, Error>)
        ensures
            match r {
                Ok(id) => block::id_of_text(s@) == Some(id@),
                Err(e) => block::id_of_text(s@) is None && (e matches Error::InvalidId(t) && t@ == s@),
            },
    {
        AgentId::parse(s)
    }
}

/// A signature passes exactly if the check says so, and an unusable key is told
/// apart from a signature that does not fit.
pub proof fn a_verdict_tells_the_check(check: Option<bool>, r: Result<(), Error>)
    requires
        verdict_is(check, r),
    ensures
        r is Ok <==> check == Some(true),
        (r matches Err(Error::InvalidAgentKey)) <==> check is None,
        (r matches Err(Error::BadSignature)) <==> check == Some(false),
{
}

} // verus!
