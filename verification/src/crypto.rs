//! Password derivation: the SHA-256 digest of host-provided random
//! bytes, spelled as lowercase hex. The digest itself is computed by an
//! outside crate and only named here; the hex spelling is stated
//! exactly.
use vstd::prelude::*;
use sha2::Digest;

verus! {

/// The SHA-256 digest of `data`. The digest is a pure function of its
/// input, far too long to state here, so it is only named; `sha256`
/// below returns it.
pub uninterp spec fn sha256_of(data: Seq<u8>) -> Seq<u8>;

/// Relies on sha2's `Sha256::digest`: a pure function of the input
/// bytes, always 32 bytes long.
#[verifier::external_body]
pub fn sha256(data: &Vec<u8>) -> (r: Vec<u8>)
    ensures
        r@ == sha256_of(data@),
        r@.len() == 32,
{
    sha2::Sha256::digest(data.as_slice()).to_vec()
}

/// The lowercase hex digit for a value below 16, as its ASCII byte.
pub open spec fn hex_digit(n: u8) -> u8
    recommends
        n < 16,
{
    if n < 10 {
        (48 + n) as u8
    } else {
        (87 + n) as u8
    }
}

/// Lowercase hex spelling of a byte string: two digits per byte, high
/// nibble first.
pub open spec fn spec_hex_lower(b: Seq<u8>) -> Seq<u8>
    decreases b.len(),
{
    if b.len() == 0 {
        Seq::<u8>::empty()
    } else {
        seq![hex_digit(b[0] / 16), hex_digit(b[0] % 16)] + spec_hex_lower(b.skip(1))
    }
}

/// Relies on hex's `encode`: lowercase, two digits per byte, high
/// nibble first; the result is ASCII, returned here as its bytes.
#[verifier::external_body]
pub fn hex_lower(b: &Vec<u8>) -> (r: Vec<u8>)
    ensures
        r@ == spec_hex_lower(b@),
{
    hex::encode(b.as_slice()).into_bytes()
}

/// The password stored for a profile when none was supplied: the hex
/// spelling of the digest of the host-provided random bytes.
pub open spec fn spec_password(rand: Seq<u8>) -> Seq<u8> {
    spec_hex_lower(sha256_of(rand))
}

/// Derive the default password from host-provided random bytes.
pub fn derive_password(rand: &Vec<u8>) -> (r: Vec<u8>)
    ensures
        r@ == spec_password(rand@),
        r@.len() == 64,
{
    let digest = sha256(rand);
    let hex = hex_lower(&digest);
    proof {
        lemma_hex_len(sha256_of(rand@));
    }
    hex
}

/// Hex spelling doubles the length.
pub proof fn lemma_hex_len(b: Seq<u8>)
    ensures
        spec_hex_lower(b).len() == 2 * b.len(),
    decreases b.len(),
{
    if b.len() > 0 {
        lemma_hex_len(b.skip(1));
    }
}

} // verus!
