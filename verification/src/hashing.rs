use vstd::prelude::*;
use vstd::string::StrSliceExecFns;
use sha2::Digest;

verus! {

/// The SHA-256 digest of the UTF-8 bytes of a character sequence.
/// The digest depends on the input alone, so it can be named without a body.
pub uninterp spec fn sha256_of(s: Seq<char>) -> Seq<u8>;

/// The lowercase hexadecimal digit character for `d`.
pub open spec fn hex_digit_char(d: u8) -> char
    recommends
        d < 16,
{
    if d == 0 {
        '0'
    } else if d == 1 {
        '1'
    } else if d == 2 {
        '2'
    } else if d == 3 {
        '3'
    } else if d == 4 {
        '4'
    } else if d == 5 {
        '5'
    } else if d == 6 {
        '6'
    } else if d == 7 {
        '7'
    } else if d == 8 {
        '8'
    } else if d == 9 {
        '9'
    } else if d == 10 {
        'a'
    } else if d == 11 {
        'b'
    } else if d == 12 {
        'c'
    } else if d == 13 {
        'd'
    } else if d == 14 {
        'e'
    } else {
        'f'
    }
}

/// Lowercase hex encoding: two digits per byte, high nibble first.
pub open spec fn hex_of(bytes: Seq<u8>) -> Seq<char> {
    Seq::new(
        (bytes.len() * 2) as nat,
        |i: int|
            if i % 2 == 0 {
                hex_digit_char(bytes[i / 2] / 16)
            } else {
                hex_digit_char(bytes[i / 2] % 16)
            },
    )
}

/// The hex rendering of the SHA-256 digest of a character sequence.
pub open spec fn sha_hex(s: Seq<char>) -> Seq<char> {
    hex_of(sha256_of(s))
}

/// Relies on sha2's `Sha256::digest`: a 32-byte digest that depends on the
/// input bytes alone (and UTF-8 encoding is injective, so on the characters alone).
#[verifier::external_body]
pub(crate) fn sha256_digest(s: &str) -> (r: Vec<u8>)
    ensures
        r@ == sha256_of(s@),
        r@.len() == 32,
{
    sha2::Sha256::digest(s.as_bytes()).to_vec()
}

/// Relies on hex::encode: each input byte becomes two lowercase hex digits,
/// high nibble first.
#[verifier::external_body]
fn hex_encode(bytes: &Vec<u8>) -> (r: String)
    ensures
        r@ == hex_of(bytes@),
{
    hex::encode(bytes.as_slice())
}

/// The hex-rendered SHA-256 digest of `s`: always 64 lowercase hex characters.
pub fn sha256_hex(s: &str) -> (r: String)
    ensures
        r@ == sha_hex(s@),
        r@.len() == 64,
{
    let digest = sha256_digest(s);
    hex_encode(&digest)
}

/// A hash string meets the fixed proof-of-work difficulty when its first two
/// characters are '0'.
pub open spec fn meets_difficulty(h: Seq<char>) -> bool {
    h.len() >= 2 && h[0] == '0' && h[1] == '0'
}

/// Checks the proof-of-work condition on a hash string.
pub fn hash_meets_difficulty(h: &str) -> (r: bool)
    ensures
        r == meets_difficulty(h@),
{
    let len = h.unicode_len();
    if len < 2 {
        return false;
    }
    let c0 = h.get_char(0);
    if c0 != '0' {
        return false;
    }
    let c1 = h.get_char(1);
    c1 == '0'
}

} // verus!
