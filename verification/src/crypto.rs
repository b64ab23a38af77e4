//! The few calls into outside crates that the logic rests on: hashing,
//! randomness, hex text and the clock.
use vstd::prelude::*;

verus! {

/// The SHA-256 digest of a byte sequence; a function of its input alone.
pub uninterp spec fn sha256_of(data: Seq<u8>) -> Seq<u8>;

/// Relies on sha2's SHA-256: the digest is thirty-two bytes and depends
/// on the input bytes alone.
#[verifier::external_body]
pub fn hash_key(key: &[u8]) -> (r: [u8; 32])
    ensures
        r@ == sha256_of(key@),
{
    let digest = <sha2::Sha256 as sha2::Digest>::digest(key);
    let mut out = [0u8; 32];
    out.copy_from_slice(&digest);
    out
}

pub assume_specification<T>[ rand::random::<T> ]() -> (r: T)
    where
        rand::distributions::Standard: rand::distributions::Distribution<T>,
;

/// A fresh random 128-bit request identifier.
pub fn generate_msg_id() -> (r: [u8; 16]) {
    rand::random::<[u8; 16]>()
}

/// A fresh random 160-bit identifier suffix.
pub fn random_id_bytes() -> (r: [u8; 20]) {
    rand::random::<[u8; 20]>()
}

/// The lowercase hexadecimal digit of a value below sixteen.
pub open spec fn hex_digit(n: u8) -> char {
    if n == 0 {
        '0'
    } else if n == 1 {
        '1'
    } else if n == 2 {
        '2'
    } else if n == 3 {
        '3'
    } else if n == 4 {
        '4'
    } else if n == 5 {
        '5'
    } else if n == 6 {
        '6'
    } else if n == 7 {
        '7'
    } else if n == 8 {
        '8'
    } else if n == 9 {
        '9'
    } else if n == 10 {
        'a'
    } else if n == 11 {
        'b'
    } else if n == 12 {
        'c'
    } else if n == 13 {
        'd'
    } else if n == 14 {
        'e'
    } else {
        'f'
    }
}

/// The lowercase hexadecimal text of a byte sequence: two digits per
/// byte, high nibble first.
pub open spec fn hex_of(b: Seq<u8>) -> Seq<char> {
    Seq::new(b.len() * 2, |i: int| if i % 2 == 0 {
        hex_digit(b[i / 2] >> 4)
    } else {
        hex_digit(b[i / 2] & 0xf)
    })
}

/// Relies on hex::encode: two lowercase digits per byte, high nibble
/// first.
#[verifier::external_body]
pub fn to_hex(b: &[u8]) -> (r: String)
    ensures
        r@ == hex_of(b@),
{
    hex::encode(b)
}

/// Relies on std::time::SystemTime: seconds since the Unix epoch; no two
/// calls are promised any relation.
#[verifier::external_body]
pub fn get_now_i64() -> (r: i64) {
    std::time::SystemTime::now().duration_since(std::time::UNIX_EPOCH).map(
        |d| d.as_secs() as i64,
    ).unwrap_or(0)
}

/// The clock reading clamped to an unsigned second count.
pub fn now_seconds() -> (r: u64) {
    let t = get_now_i64();
    if t < 0 {
        0
    } else {
        t as u64
    }
}

} // verus!
