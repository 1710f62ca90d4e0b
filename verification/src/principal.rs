//! Identities. The caller principal is carried as its raw bytes (at
//! most 29 of them); the canonical text form — used as the default
//! username and in backups — is computed by the candid crate and only
//! named here.
use vstd::prelude::*;

verus! {

/// The longest raw principal, in bytes.
pub const MAX_PRINCIPAL_BYTES: u32 = 29;

/// The canonical text form of a principal's raw bytes, as ASCII bytes.
/// A pure function of the bytes; its definition (base32 with a
/// checksum, grouped by dashes) lives in the outside crate and is only
/// named here.
pub uninterp spec fn principal_text_of(raw: Seq<u8>) -> Seq<u8>;

/// What parsing a text form yields: the raw bytes it denotes, if any.
pub uninterp spec fn principal_of_text(text: Seq<u8>) -> Option<Seq<u8>>;

/// Relies on candid's `Principal::from_slice` (panics over 29 bytes,
/// kept out by the precondition) and `Principal::to_text`, a pure
/// function of the principal's bytes whose result is ASCII. The text
/// is at most 63 bytes: base32 of a 4-byte checksum plus at most 29
/// bytes gives at most 53 digits, grouped by at most 10 dashes.
#[verifier::external_body]
pub fn principal_to_text(raw: &Vec<u8>) -> (r: Vec<u8>)
    requires
        raw@.len() <= MAX_PRINCIPAL_BYTES,
    ensures
        r@ == principal_text_of(raw@),
        r@.len() <= 63,
{
    candid::Principal::from_slice(raw.as_slice()).to_text().into_bytes()
}

/// Relies on candid's `Principal::from_text`: it returns raw bytes (at
/// most 29 of them) only for text it validates against the canonical
/// spelling; in particular parsing `to_text`'s output returns the
/// original bytes.
#[verifier::external_body]
pub fn principal_from_text(text: &Vec<u8>) -> (r: Option<Vec<u8>>)
    ensures
        crate::codec::view_opt_bytes(r) == principal_of_text(text@),
        match r {
            Some(raw) => raw@.len() <= MAX_PRINCIPAL_BYTES,
            None => true,
        },
        forall|raw: Seq<u8>|
            raw.len() <= MAX_PRINCIPAL_BYTES && text@ == #[trigger] principal_text_of(raw)
                ==> crate::codec::view_opt_bytes(r) == Some(raw),
{
    let s = match std::str::from_utf8(text.as_slice()) {
        Ok(s) => s,
        Err(_) => {
            return None;
        },
    };
    match candid::Principal::from_text(s) {
        Ok(p) => Some(p.as_slice().to_vec()),
        Err(_) => None,
    }
}

} // verus!
