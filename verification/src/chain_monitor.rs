//! The verifiable part of transaction decoding: turning an optionally
//! `0x`-prefixed hex string into raw bytes, and normalizing a gas price.
//! Envelope decoding and signer recovery are an external collaborator's
//! work on those bytes.

use vstd::prelude::*;
use vstd::string::StringSliceAdditionalSpecFns;

verus! {

/// Why a transaction payload could not be decoded.
#[derive(Clone, Copy, Debug, PartialEq, Eq, Structural)]
pub enum DecodingError {
    /// The payload is not a hex string of whole bytes.
    InvalidHex,
    /// The bytes are not a well-formed transaction envelope.
    MalformedEnvelope,
    /// The signer could not be recovered from the envelope.
    RecoveryFailed,
}

/// An ASCII hex digit.
pub open spec fn is_hex_digit(b: u8) -> bool {
    (0x30 <= b <= 0x39) || (0x41 <= b <= 0x46) || (0x61 <= b <= 0x66)
}

/// The value of an ASCII hex digit.
pub open spec fn hex_val(b: u8) -> int {
    if 0x30 <= b <= 0x39 {
        b - 0x30
    } else if 0x41 <= b <= 0x46 {
        b - 0x41 + 10
    } else if 0x61 <= b <= 0x66 {
        b - 0x61 + 10
    } else {
        0
    }
}

/// A decodable hex payload: an even number of hex digits.
pub open spec fn hex_ok(s: Seq<u8>) -> bool {
    &&& s.len() % 2 == 0
    &&& forall|i: int| 0 <= i < s.len() ==> is_hex_digit(#[trigger] s[i])
}

/// The bytes a hex payload denotes, two digits to a byte.
pub open spec fn hex_bytes(s: Seq<u8>) -> Seq<u8> {
    Seq::new((s.len() / 2) as nat, |i: int| (hex_val(s[2 * i]) * 16 + hex_val(s[2 * i + 1])) as u8)
}

/// The payload with one optional `0x` prefix removed.
pub open spec fn strip_hex_prefix(s: Seq<u8>) -> Seq<u8> {
    if s.len() >= 2 && s[0] == 0x30 && s[1] == 0x78 {
        s.skip(2)
    } else {
        s
    }
}

/// Relies on `hex::decode`: it succeeds exactly on an even number of hex
/// digits (either case) and maps each pair to the byte it denotes.
#[verifier::external_body]
fn hex_decode(data: &[u8]) -> (r: Result<Vec<u8>, hex::FromHexError>)
    ensures
        r is Ok <==> hex_ok(data@),
        r matches Ok(v) ==> v@ == hex_bytes(data@),
{
    hex::decode(data)
}

#[verifier::external_type_specification]
#[verifier::external_body]
pub struct ExFromHexError(hex::FromHexError);

/// The raw bytes of an optionally `0x`-prefixed hex transaction payload,
/// or `InvalidHex` exactly when what follows the prefix is not an even
/// number of hex digits.
pub fn decode_hex_payload(tx_hex: &str) -> (r: Result<Vec<u8>, DecodingError>)
    ensures
        r is Ok <==> hex_ok(strip_hex_prefix(tx_hex.spec_bytes())),
        r matches Ok(v) ==> v@ == hex_bytes(strip_hex_prefix(tx_hex.spec_bytes())),
        r matches Err(e) ==> e == DecodingError::InvalidHex,
{
    let bytes = tx_hex.as_bytes();
    let stripped: &[u8] = if bytes.len() >= 2 && bytes[0] == 0x30 && bytes[1] == 0x78 {
        &bytes[2..bytes.len()]
    } else {
        bytes
    };
    proof {
        assert(stripped@ =~= strip_hex_prefix(tx_hex.spec_bytes()));
    }
    match hex_decode(stripped) {
        Ok(v) => Ok(v),
        Err(_) => Err(DecodingError::InvalidHex),
    }
}

/// The normalized gas price of a decoded transaction: the explicit gas
/// price where the envelope carries one, else its fee cap.
pub fn normalize_gas_price(gas_price: Option<u128>, max_fee_per_gas: u128) -> (r: u128)
    ensures
        r == match gas_price {
            Some(p) => p,
            None => max_fee_per_gas,
        },
{
    match gas_price {
        Some(p) => p,
        None => max_fee_per_gas,
    }
}

} // verus!
