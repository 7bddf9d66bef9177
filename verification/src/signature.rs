use vstd::prelude::*;
use vstd::string::StringExecFns;
use vstd::utf8::encode_utf8;

use crate::text::{decimal, push_decimal};

verus! {

/// Length of an ed25519 signature in bytes.
pub const SIGNATURE_LENGTH: usize = 64;

/// Length of a SHA-256 digest in bytes.
pub const HASH_LENGTH: usize = 32;

/// The SHA-256 digest of `data`.
pub uninterp spec fn sha256(data: Seq<u8>) -> Seq<u8>;

/// Whether `key` is the compressed form of an ed25519 curve point.
pub uninterp spec fn ed25519_public_key_valid(key: Seq<u8>) -> bool;

/// Whether `signature` is a strictly valid ed25519 signature of `message` under `key`.
pub uninterp spec fn ed25519_strict_verifies(key: Seq<u8>, message: Seq<u8>, signature: Seq<u8>) -> bool;

/// Calls `crypto_hash::digest` with `Algorithm::SHA256`. Claimed: the result is the
/// SHA-256 digest of `data`, a function of `data` alone, and has 32 bytes (the crate
/// documents the algorithm as the 256-bit member of SHA-2).
#[verifier::external_body]
fn sha256_digest(data: &[u8]) -> (hash: Vec<u8>)
    ensures
        hash@ == sha256(data@),
        hash@.len() == HASH_LENGTH,
{
    crypto_hash::digest(crypto_hash::Algorithm::SHA256, data)
}

/// Calls `ed25519_dalek::VerifyingKey::from_bytes` on 32 bytes. Claimed: it succeeds
/// exactly when the bytes are a valid key, a function of the bytes alone.
#[verifier::external_body]
pub(crate) fn ed25519_public_key_is_valid(key: &[u8]) -> (valid: bool)
    requires
        key@.len() == 32,
    ensures
        valid == ed25519_public_key_valid(key@),
{
    let bytes: &[u8; 32] = key.try_into().unwrap();
    ed25519_dalek::VerifyingKey::from_bytes(bytes).is_ok()
}

/// Calls `ed25519_dalek::VerifyingKey::verify_strict` with the key and signature parsed
/// from their bytes (`VerifyingKey::from_bytes`, `Signature::from_bytes`). Claimed: the
/// result is a function of the key, message and signature bytes alone, and it is false
/// for a key that does not parse (the key's `from_bytes` fails and nothing is verified).
#[verifier::external_body]
fn ed25519_verify_strict(key: &[u8], message: &[u8], signature: &[u8]) -> (ok: bool)
    requires
        key@.len() == 32,
        signature@.len() == SIGNATURE_LENGTH,
    ensures
        ok == ed25519_strict_verifies(key@, message@, signature@),
        ok ==> ed25519_public_key_valid(key@),
{
    let key_bytes: &[u8; 32] = key.try_into().unwrap();
    let signature_bytes: &[u8; 64] = signature.try_into().unwrap();
    match ed25519_dalek::VerifyingKey::from_bytes(key_bytes) {
        Ok(key) => key.verify_strict(message, &ed25519_dalek::Signature::from_bytes(signature_bytes)).is_ok(),
        Err(_) => false,
    }
}

/// The text that a product's key signs for a ticket: the contract account, the
/// receiver, the product, the amount, the last jar id (empty when there is none)
/// and the expiry, separated by commas.
pub open spec fn signature_material(
    contract_account_id: Seq<char>,
    receiver_account_id: Seq<char>,
    product_id: Seq<char>,
    amount: u128,
    last_jar_id: Option<u32>,
    valid_until: u64,
) -> Seq<char> {
    contract_account_id + seq![','] + receiver_account_id + seq![','] + product_id + seq![',']
        + decimal(amount as nat) + seq![','] + match last_jar_id {
        Some(id) => decimal(id as nat),
        None => Seq::<char>::empty(),
    } + seq![','] + decimal(valid_until as nat)
}

fn comma() -> (s: &'static str)
    ensures
        s@ == seq![','],
{
    proof {
        reveal_strlit(",");
    }
    let s = ",";
    assert(s@ =~= seq![',']);
    s
}

/// Builds the signature material of a ticket.
pub fn get_signature_material(
    contract_account_id: &String,
    receiver_account_id: &String,
    product_id: &String,
    amount: u128,
    last_jar_id: Option<u32>,
    valid_until: u64,
) -> (material: String)
    ensures
        material@ == signature_material(
            contract_account_id@,
            receiver_account_id@,
            product_id@,
            amount,
            last_jar_id,
            valid_until,
        ),
{
    let mut s = String::new();
    s.append(contract_account_id.as_str());
    s.append(comma());
    s.append(receiver_account_id.as_str());
    s.append(comma());
    s.append(product_id.as_str());
    s.append(comma());
    push_decimal(&mut s, amount);
    s.append(comma());
    match last_jar_id {
        Some(id) => push_decimal(&mut s, id as u128),
        None => {},
    }
    s.append(comma());
    push_decimal(&mut s, valid_until as u128);
    assert(s@ =~= signature_material(
        contract_account_id@,
        receiver_account_id@,
        product_id@,
        amount,
        last_jar_id,
        valid_until,
    ));
    s
}

/// The bytes held by an optional vector.
pub open spec fn bytes_view(v: Option<Vec<u8>>) -> Option<Seq<u8>> {
    match v {
        Some(v) => Some(v@),
        None => None,
    }
}

/// Why a ticket is refused.
#[derive(Clone, Debug, PartialEq, Eq)]
pub enum TicketError {
    SignatureRequired,
    Outdated,
    SignatureLength,
    PublicKeyLength,
    PublicKeyInvalid,
    /// The signature does not sign the material, given here.
    NotMatchingSignature(String),
}

/// What checking a ticket gives: a product without a key accepts every ticket;
/// otherwise a signature must be present, the ticket must not have expired, both
/// the signature and the key must be well formed, and the signature must sign the
/// SHA-256 digest of the material.
pub open spec fn ticket_check(
    public_key: Option<Seq<u8>>,
    signature: Option<Seq<u8>>,
    now: u64,
    valid_until: u64,
    material: Seq<char>,
) -> Result<(), TicketError> {
    match public_key {
        None => Ok(()),
        Some(pk) => match signature {
            None => Err(TicketError::SignatureRequired),
            Some(sig) => if now > valid_until {
                Err(TicketError::Outdated)
            } else if sig.len() != SIGNATURE_LENGTH {
                Err(TicketError::SignatureLength)
            } else if pk.len() != 32 {
                Err(TicketError::PublicKeyLength)
            } else if !ed25519_public_key_valid(pk) {
                Err(TicketError::PublicKeyInvalid)
            } else if !ed25519_strict_verifies(pk, sha256(encode_utf8(material)), sig) {
                Err(TicketError::NotMatchingSignature(arbitrary()))
            } else {
                Ok(())
            },
        },
    }
}

/// Checks a ticket against the product's public key, as `ticket_check` says; a
/// refused signature carries the material that it failed to sign.
pub fn verify_ticket(
    public_key: &Option<Vec<u8>>,
    signature: &Option<Vec<u8>>,
    now: u64,
    valid_until: u64,
    material: &String,
) -> (r: Result<(), TicketError>)
    ensures
        r is Ok <==> ticket_check(
            bytes_view(*public_key),
            bytes_view(*signature),
            now,
            valid_until,
            material@,
        ) is Ok,
        r matches Err(TicketError::NotMatchingSignature(m)) ==> m@ == material@,
        r matches Err(e) ==> ticket_check(
            bytes_view(*public_key),
            bytes_view(*signature),
            now,
            valid_until,
            material@,
        ) matches Err(f) && (e is NotMatchingSignature ==> f is NotMatchingSignature) && (
        !(e is NotMatchingSignature) ==> e == f),
{
    match public_key {
        None => Ok(()),
        Some(pk) => match signature {
            None => Err(TicketError::SignatureRequired),
            Some(sig) => {
                if now > valid_until {
                    Err(TicketError::Outdated)
                } else if sig.len() != SIGNATURE_LENGTH {
                    Err(TicketError::SignatureLength)
                } else if pk.len() != 32 {
                    Err(TicketError::PublicKeyLength)
                } else if !ed25519_public_key_is_valid(pk.as_slice()) {
                    Err(TicketError::PublicKeyInvalid)
                } else {
                    let bytes = material.as_str().as_bytes();
                    let hash = sha256_digest(bytes);
                    if ed25519_verify_strict(pk.as_slice(), hash.as_slice(), sig.as_slice()) {
                        Ok(())
                    } else {
                        Err(TicketError::NotMatchingSignature(material.clone()))
                    }
                }
            },
        },
    }
}

} // verus!
