//! The cryptography effects: SHA-256 digests, random bytes and random
//! (version 4) UUIDs.

use vstd::prelude::*;

use ring::rand::SecureRandom;

use crate::effects::{CryptoRequest, EffectError};
use crate::packages::{hex_char, hex_digit_char, sha256, sha256_digest};
use crate::text::{chars_of, string_of};

verus! {

/// The largest input of a digest and the most random bytes one request
/// may ask for.
pub const MAX_CRYPTO_BYTES: usize = 1048576;

/// What a cryptography effect produces.
pub enum CryptoOutput {
    Bytes(Vec<u8>),
    Uuid(String),
}

/// `ring::rand::SystemRandom::fill`: `len` bytes from the operating
/// system's random source, or `None` when that source fails. Nothing is
/// promised of the bytes' values.
#[verifier::external_body]
fn system_random(len: usize) -> (r: Option<Vec<u8>>)
    ensures
        r matches Some(v) ==> v@.len() == len,
{
    let mut bytes = vec![0u8; len];
    match ring::rand::SystemRandom::new().fill(&mut bytes) {
        Ok(()) => Some(bytes),
        Err(_) => None,
    }
}

/// A byte with the UUID version 4 bits set (`0100xxxx`).
pub open spec fn version_byte(b: u8) -> u8 {
    ((b % 16) + 64) as u8
}

/// A byte with the RFC 4122 variant bits set (`10xxxxxx`).
pub open spec fn variant_byte(b: u8) -> u8 {
    ((b % 64) + 128) as u8
}

/// The two lowercase hexadecimal digits of a byte.
pub open spec fn hex2(b: u8) -> Seq<char> {
    seq![hex_char((b / 16) as int), hex_char((b % 16) as int)]
}

/// The UUID made of 16 bytes: byte 6 gets the version bits, byte 8 the
/// variant bits, and the hexadecimal digits are grouped 8-4-4-4-12.
pub open spec fn uuid_text(bs: Seq<u8>) -> Seq<char> {
    let b = bs.update(6, version_byte(bs[6])).update(8, variant_byte(bs[8]));
    hex2(b[0]) + hex2(b[1]) + hex2(b[2]) + hex2(b[3]) + seq!['-'] + hex2(b[4]) + hex2(b[5]) + seq!['-'] + hex2(b[6])
        + hex2(b[7]) + seq!['-'] + hex2(b[8]) + hex2(b[9]) + seq!['-'] + hex2(b[10]) + hex2(b[11]) + hex2(b[12])
        + hex2(b[13]) + hex2(b[14]) + hex2(b[15])
}

/// The text of a version 4 UUID from 16 random bytes.
pub fn uuid_from_bytes(bytes: &Vec<u8>) -> (r: String)
    requires
        bytes@.len() == 16,
    ensures
        r@ == uuid_text(bytes@),
{
    let ghost b = bytes@.update(6, version_byte(bytes@[6])).update(8, variant_byte(bytes@[8]));
    let mut out: Vec<char> = Vec::new();
    let mut i: usize = 0;
    let ghost mut expected: Seq<char> = Seq::empty();
    while i < 16
        invariant
            i <= 16,
            bytes@.len() == 16,
            b == bytes@.update(6, version_byte(bytes@[6])).update(8, variant_byte(bytes@[8])),
            out@ == uuid_prefix(b, i as int),
        decreases 16 - i,
    {
        if i == 4 || i == 6 || i == 8 || i == 10 {
            out.push('-');
        }
        let raw = bytes[i];
        let byte: u8 = if i == 6 {
            raw % 16 + 64
        } else if i == 8 {
            raw % 64 + 128
        } else {
            raw
        };
        assert(byte == b[i as int]);
        out.push(hex_digit_char(byte / 16));
        out.push(hex_digit_char(byte % 16));
        assert(out@ =~= uuid_prefix(b, i + 1));
        i += 1;
    }
    assert(uuid_prefix(b, 16) =~= uuid_text(bytes@)) by {
        reveal_with_fuel(uuid_prefix, 17);
    }
    string_of(out.as_slice())
}

/// The text of the first `n` bytes of a UUID, with its dashes.
pub open spec fn uuid_prefix(b: Seq<u8>, n: int) -> Seq<char>
    decreases n,
{
    if n <= 0 {
        Seq::<char>::empty()
    } else {
        let dash = if n - 1 == 4 || n - 1 == 6 || n - 1 == 8 || n - 1 == 10 { seq!['-'] } else { Seq::<char>::empty() };
        uuid_prefix(b, n - 1) + dash + hex2(b[n - 1])
    }
}

fn invalid(message: &str) -> (r: EffectError)
    ensures
        r matches EffectError::Invalid(m) && m@ == message@,
{
    EffectError::Invalid(string_of(chars_of(message).as_slice()))
}

/// Runs a cryptography effect. A digest input or a count of random bytes
/// above the limit, or no random bytes at all, is refused; a failing
/// random source is an I/O error.
pub fn execute_crypto(request: CryptoRequest) -> (r: Result<CryptoOutput, EffectError>)
    ensures
        match request {
            CryptoRequest::Sha256(bytes) => if bytes@.len() > MAX_CRYPTO_BYTES {
                r matches Err(EffectError::Invalid(m)) && m@ == "SHA-256 input must not exceed 1048576 bytes"@
            } else {
                r matches Ok(CryptoOutput::Bytes(d)) && d@ == sha256_digest(bytes@)
            },
            CryptoRequest::RandomBytes(len) => if len == 0 || len > MAX_CRYPTO_BYTES {
                r matches Err(EffectError::Invalid(m)) && m@ == "random byte length must be in 1..=1048576"@
            } else {
                ||| r matches Ok(CryptoOutput::Bytes(v)) && v@.len() == len
                ||| r matches Err(EffectError::Io(m)) && m@ == "operating-system random source failed"@
            },
            CryptoRequest::RandomUuid => {
                ||| r matches Ok(CryptoOutput::Uuid(u)) && exists|bs: Seq<u8>| bs.len() == 16 && u@ == uuid_text(bs)
                ||| r matches Err(EffectError::Io(m)) && m@ == "operating-system random source failed"@
            },
        },
{
    match request {
        CryptoRequest::Sha256(bytes) => {
            if bytes.len() > MAX_CRYPTO_BYTES {
                return Err(invalid("SHA-256 input must not exceed 1048576 bytes"));
            }
            Ok(CryptoOutput::Bytes(sha256(bytes.as_slice())))
        },
        CryptoRequest::RandomBytes(len) => {
            if len == 0 || len > MAX_CRYPTO_BYTES {
                return Err(invalid("random byte length must be in 1..=1048576"));
            }
            match system_random(len) {
                Some(v) => Ok(CryptoOutput::Bytes(v)),
                None => Err(EffectError::Io(string_of(chars_of("operating-system random source failed").as_slice()))),
            }
        },
        CryptoRequest::RandomUuid => {
            match system_random(16) {
                Some(v) => {
                    let u = uuid_from_bytes(&v);
                    Ok(CryptoOutput::Uuid(u))
                },
                None => Err(EffectError::Io(string_of(chars_of("operating-system random source failed").as_slice()))),
            }
        },
    }
}

} // verus!
