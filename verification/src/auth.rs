//! Signature-based authentication: a caller proves control of an address by
//! signing the fixed challenge message; the address recovered from the
//! signature must match the claimed one, compared case-insensitively.

use vstd::prelude::*;

verus! {

/// What `str::to_lowercase` returns: a function of the characters alone.
pub uninterp spec fn lower_of(s: Seq<char>) -> Seq<char>;

/// Relies on `str::to_lowercase`: the result depends on the characters alone.
#[verifier::external_body]
fn lowercase(s: &str) -> (r: String)
    ensures
        r@ == lower_of(s@),
{
    s.to_lowercase()
}

/// The address, if any, that signature recovery yields for a signature text,
/// over this library's fixed challenge message. Parsing and ECDSA recovery
/// are functions of the text alone, so the outcome carries a name.
pub uninterp spec fn recovered_of(sig: Seq<char>) -> Option<Seq<char>>;

/// Relies on ethers' `Signature::from_str` (hex signature parsing) and
/// `Signature::recover` (ECDSA public-key recovery over the challenge
/// message): both are deterministic in the signature text. The recovered
/// address is rendered with `{:#x}`: `0x` followed by lowercase hex digits.
#[verifier::external_body]
fn recover_public_address(signature: &str) -> (r: Option<String>)
    ensures
        match (r, recovered_of(signature@)) {
            (Some(a), Some(b)) => a@ == b,
            (None, None) => true,
            _ => false,
        },
{
    let sig = match <ethers::types::Signature as core::str::FromStr>::from_str(signature) {
        Ok(s) => s,
        Err(_) => {
            return None;
        },
    };
    match sig.recover("let's play") {
        Ok(addr) => Some(format!("{:#x}", addr)),
        Err(_) => None,
    }
}

/// A signature authenticates an address exactly when recovery succeeds and
/// yields the address, lowercased.
pub open spec fn spec_authenticated(address: Seq<char>, signature: Seq<char>) -> bool {
    recovered_of(signature) == Some(lower_of(address))
}

pub fn authenticate(address: &str, signature: &str) -> (ok: bool)
    ensures
        ok == spec_authenticated(address@, signature@),
{
    let lower = lowercase(address);
    match recover_public_address(signature) {
        Some(recovered) => lower == recovered,
        None => false,
    }
}

} // verus!
