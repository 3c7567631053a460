use vstd::prelude::*;
use vstd::string::StrSliceExecFns;
use vstd::string::StringExecFns;
use rand::Rng;

verus! {

/// A key pair held as hex strings: the private key only this node knows, and
/// the public key whose prefix serves as the node's address.
pub struct Wallet {
    pub private_key: String,
    pub public_key: String,
}

/// A stored key pair: 32 secret bytes and a 33-byte compressed public key,
/// two hex digits per byte, and a private key that decodes to a valid scalar.
pub open spec fn wallet_wf(w: Wallet) -> bool {
    &&& w.private_key@.len() == 64
    &&& w.public_key@.len() == 66
    &&& is_valid_key_hex(w.private_key@)
}

/// Whether a hex string decodes to 32 bytes that form a valid secp256k1
/// secret scalar — the success condition of `SecretKey::from_secret_bytes`
/// over `hex::decode`, a function of the characters alone.
pub uninterp spec fn is_valid_key_hex(key_hex: Seq<char>) -> bool;

/// The lowercase-hex compact ECDSA signature that RFC 6979 signing produces
/// for the given private key and 32-byte digest: deterministic, so a function
/// of its arguments alone.
pub uninterp spec fn ecdsa_sig_hex_of(key_hex: Seq<char>, digest: Seq<u8>) -> Seq<char>;

/// Relies on rand's `thread_rng`/`fill` for 32 random bytes, and on
/// secp256k1: `SecretKey::from_secret_bytes` (refuses an out-of-range
/// scalar, so a returned private key satisfies `is_valid_key_hex`),
/// `PublicKey::from_secret_key`, and `PublicKey::serialize`, whose result is
/// the 33-byte compressed encoding; `hex::encode` yields two digits per
/// byte, and `hex::decode` inverts it. Returns (private, public) hex
/// strings, or `None` when the drawn bytes are not a valid scalar.
#[verifier::external_body]
fn generate_keypair_hex() -> (r: Option<(String, String)>)
    ensures
        r matches Some(p) ==> p.0@.len() == 64 && p.1@.len() == 66 && is_valid_key_hex(p.0@),
{
    let mut bytes = [0u8; 32];
    rand::thread_rng().fill(&mut bytes);
    let secret_key = match secp256k1::SecretKey::from_secret_bytes(bytes) {
        Ok(k) => k,
        Err(_) => return None,
    };
    let public_key = secp256k1::PublicKey::from_secret_key(&secret_key);
    Some((hex::encode(bytes), hex::encode(public_key.serialize())))
}

/// Relies on `hex::decode` of the stored private key, and on secp256k1:
/// `SecretKey::from_secret_bytes` (together with the decode, exactly
/// `is_valid_key_hex`), `Message::from_digest` over the given 32-byte digest,
/// `SecretKey::sign_ecdsa` (RFC 6979 nonce, hence deterministic — the named
/// `ecdsa_sig_hex_of`), and `Signature::serialize_compact`, whose result is
/// 64 bytes; `hex::encode` yields two digits per byte.
#[verifier::external_body]
fn ecdsa_sign_hex(private_key_hex: &str, digest: &Vec<u8>) -> (r: Option<String>)
    requires
        digest@.len() == 32,
    ensures
        (r is Some) == is_valid_key_hex(private_key_hex@),
        r matches Some(sig) ==> sig@ == ecdsa_sig_hex_of(private_key_hex@, digest@) && sig@.len()
            == 128,
{
    let bytes = hex::decode(private_key_hex).ok()?;
    let arr: [u8; 32] = bytes.try_into().ok()?;
    let secret_key = secp256k1::SecretKey::from_secret_bytes(arr).ok()?;
    let digest_arr: [u8; 32] = match digest.as_slice().try_into() {
        Ok(a) => a,
        Err(_) => return None,
    };
    let msg = secp256k1::Message::from_digest(digest_arr);
    let sig = secret_key.sign_ecdsa(msg);
    Some(hex::encode(sig.serialize_compact()))
}

impl Wallet {
    /// Generates a fresh key pair; `None` in the cryptographically negligible
    /// case that the drawn bytes are not a valid secret scalar.
    pub fn new() -> (r: Option<Wallet>)
        ensures
            r matches Some(w) ==> wallet_wf(w),
    {
        match generate_keypair_hex() {
            Some(keys) => {
                let (private_key, public_key) = keys;
                Some(Wallet { private_key, public_key })
            },
            None => None,
        }
    }

    /// The wallet's address: the first ten characters of its public key.
    pub fn get_address(&self) -> (r: String)
        requires
            self.public_key@.len() >= 10,
        ensures
            r@ == self.public_key@.subrange(0, 10),
    {
        let sub = self.public_key.as_str().substring_char(0, 10);
        String::from_str(sub)
    }

    /// Signs `tx_data`: hashes it with SHA-256 and produces the deterministic
    /// compact ECDSA signature in hex. For a wallet whose stored private key
    /// is a valid scalar — every wallet `new` produces — the signature is the
    /// named RFC 6979 result; otherwise the empty string. The core never
    /// verifies signatures; it only ever checks them for presence.
    pub fn sign_transaction(&self, tx_data: &str) -> (r: String)
        ensures
            is_valid_key_hex(self.private_key@) ==> r@ == ecdsa_sig_hex_of(
                self.private_key@,
                crate::hashing::sha256_of(tx_data@),
            ) && r@.len() == 128,
            !is_valid_key_hex(self.private_key@) ==> r@.len() == 0,
    {
        let digest = crate::hashing::sha256_digest(tx_data);
        match ecdsa_sign_hex(self.private_key.as_str(), &digest) {
            Some(sig) => sig,
            None => String::new(),
        }
    }
}

} // verus!
