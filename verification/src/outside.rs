//! The boundary with the outside crates.  Every function here is a
//! trusted wrapper: its body makes one outside call (with the plain
//! conversions the call needs), and its contract states what that crate's
//! source shows of the result.  Nothing else in the library is taken on
//! trust.

use vstd::prelude::*;

use crate::hexfmt::{all_hex_digits, hex_bytes_of, hex_of};
use crate::numeric::{all_digits, dec_digits_of, dec_value, le_value, min_le_bytes};

verus! {

/// Relies on `String::from_iter` (`FromIterator<char>`): the string of
/// exactly the given characters, in order.
#[verifier::external_body]
pub(crate) fn string_of(v: &[char]) -> (r: String)
    ensures
        r@ =~= v@,
{
    String::from_iter(v.iter().copied())
}

/// Relies on `String::from_utf8`: succeeds exactly on valid UTF-8 and
/// returns the text those bytes encode.
#[verifier::external_body]
pub(crate) fn string_from_utf8(bytes: Vec<u8>) -> (r: Option<String>)
    ensures
        r is Some <==> vstd::utf8::valid_utf8(bytes@),
        r matches Some(s) ==> s@ =~= vstd::utf8::decode_utf8(bytes@),
{
    String::from_utf8(bytes).ok()
}

/// Relies on `hex::decode`: succeeds exactly on an even number of hex
/// digits and returns one byte per digit pair, high digit first.
#[verifier::external_body]
pub(crate) fn hex_decode(s: &str) -> (r: Option<Vec<u8>>)
    ensures
        r is Some <==> (s@.len() % 2 == 0 && all_hex_digits(s@)),
        r matches Some(b) ==> b@ =~= hex_bytes_of(s@),
{
    hex::decode(s).ok()
}

/// Relies on `hex::encode`: two lowercase hex digits per byte.
#[verifier::external_body]
pub(crate) fn hex_encode(b: &[u8]) -> (r: String)
    ensures
        r@ =~= hex_of(b@),
{
    hex::encode(b)
}

/// Relies on `U128::from_dec_str` (digits only, error past `2^128`) and
/// its `ToBytes` impl: one length byte, then the minimal little-endian
/// magnitude.
#[verifier::external_body]
pub(crate) fn u128_dec_to_bytes(s: &str) -> (r: Option<Vec<u8>>)
    ensures
        r is Some <==> (all_digits(s@) && dec_value(s@) < vstd::arithmetic::power2::pow2(128)),
        r matches Some(b) ==> b@ =~= seq![min_le_bytes(dec_value(s@)).len() as u8] + min_le_bytes(
            dec_value(s@),
        ),
{
    match casper_types::U128::from_dec_str(s) {
        Ok(v) => casper_types::bytesrepr::ToBytes::to_bytes(&v).ok(),
        Err(_) => None,
    }
}

/// Relies on `U256::from_dec_str` and its `ToBytes` impl, as for `U128`.
#[verifier::external_body]
pub(crate) fn u256_dec_to_bytes(s: &str) -> (r: Option<Vec<u8>>)
    ensures
        r is Some <==> (all_digits(s@) && dec_value(s@) < vstd::arithmetic::power2::pow2(256)),
        r matches Some(b) ==> b@ =~= seq![min_le_bytes(dec_value(s@)).len() as u8] + min_le_bytes(
            dec_value(s@),
        ),
{
    match casper_types::U256::from_dec_str(s) {
        Ok(v) => casper_types::bytesrepr::ToBytes::to_bytes(&v).ok(),
        Err(_) => None,
    }
}

/// Relies on `U512::from_dec_str` and its `ToBytes` impl, as for `U128`.
#[verifier::external_body]
pub(crate) fn u512_dec_to_bytes(s: &str) -> (r: Option<Vec<u8>>)
    ensures
        r is Some <==> (all_digits(s@) && dec_value(s@) < vstd::arithmetic::power2::pow2(512)),
        r matches Some(b) ==> b@ =~= seq![min_le_bytes(dec_value(s@)).len() as u8] + min_le_bytes(
            dec_value(s@),
        ),
{
    match casper_types::U512::from_dec_str(s) {
        Ok(v) => casper_types::bytesrepr::ToBytes::to_bytes(&v).ok(),
        Err(_) => None,
    }
}

/// Relies on `U128`'s `FromBytes` impl (a length byte of at most 16, then
/// that many little-endian magnitude bytes) and its decimal `Display`.
#[verifier::external_body]
pub(crate) fn u128_bytes_to_dec(b: &[u8]) -> (r: Option<(String, usize)>)
    ensures
        r is Some <==> (b@.len() >= 1 && b@[0] <= 16 && b@.len() >= 1 + b@[0]),
        r matches Some((s, n)) ==> (s@ =~= dec_digits_of(le_value(b@.subrange(1, 1 + b@[0])))
            && n == 1 + b@[0]),
{
    match <casper_types::U128 as casper_types::bytesrepr::FromBytes>::from_bytes(b) {
        Ok((v, rem)) => Some((v.to_string(), b.len() - rem.len())),
        Err(_) => None,
    }
}

/// Relies on `U256`'s `FromBytes` impl (length byte at most 32) and its
/// decimal `Display`.
#[verifier::external_body]
pub(crate) fn u256_bytes_to_dec(b: &[u8]) -> (r: Option<(String, usize)>)
    ensures
        r is Some <==> (b@.len() >= 1 && b@[0] <= 32 && b@.len() >= 1 + b@[0]),
        r matches Some((s, n)) ==> (s@ =~= dec_digits_of(le_value(b@.subrange(1, 1 + b@[0])))
            && n == 1 + b@[0]),
{
    match <casper_types::U256 as casper_types::bytesrepr::FromBytes>::from_bytes(b) {
        Ok((v, rem)) => Some((v.to_string(), b.len() - rem.len())),
        Err(_) => None,
    }
}

/// Relies on `U512`'s `FromBytes` impl (length byte at most 64) and its
/// decimal `Display`.
#[verifier::external_body]
pub(crate) fn u512_bytes_to_dec(b: &[u8]) -> (r: Option<(String, usize)>)
    ensures
        r is Some <==> (b@.len() >= 1 && b@[0] <= 64 && b@.len() >= 1 + b@[0]),
        r matches Some((s, n)) ==> (s@ =~= dec_digits_of(le_value(b@.subrange(1, 1 + b@[0])))
            && n == 1 + b@[0]),
{
    match <casper_types::U512 as casper_types::bytesrepr::FromBytes>::from_bytes(b) {
        Ok((v, rem)) => Some((v.to_string(), b.len() - rem.len())),
        Err(_) => None,
    }
}

/// The text has one of the two key forms the engine accepts: a package
/// hash (`hash-`) or an account hash (`account-hash-`).
pub open spec fn accepted_key_text(s: Seq<char>) -> bool {
    (s.len() >= 5 && s.take(5) == seq!['h', 'a', 's', 'h', '-']) || (s.len() >= 13 && s.take(13)
        == seq!['a', 'c', 'c', 'o', 'u', 'n', 't', '-', 'h', 'a', 's', 'h', '-'])
}

/// The serialization of the key a formatted key text denotes, if the text
/// parses: `Key::from_formatted_str` followed by `ToBytes`, a function of
/// the text alone.
pub uninterp spec fn key_bytes_from_text(s: Seq<char>) -> Option<Seq<u8>>;

/// Relies on `Key::from_formatted_str`'s `account-hash-` and `hash-`
/// branches (a checked hex decode into a 32-byte hash) and `Key`'s
/// `ToBytes` impl (a tag byte, then the 32 hash bytes).  Only these two
/// forms are admitted: they are handled before, and so keep the input
/// away from, the crate's later formatted-string branches, which index
/// into their decoded payload before checking its length.  For the two
/// key variants these forms produce, `Key::from_bytes` reads back exactly
/// the tag byte and the 32 hash bytes and `Display` renders the result,
/// whatever bytes follow: the last clause states that inverse.
#[verifier::external_body]
pub(crate) fn key_encode(s: &str) -> (r: Option<Vec<u8>>)
    requires
        accepted_key_text(s@),
    ensures
        r is Some <==> key_bytes_from_text(s@) is Some,
        r matches Some(b) ==> (key_bytes_from_text(s@) == Some(b@) && b@.len() == 33),
        r matches Some(b) ==> (forall|suffix: Seq<u8>|
            ((#[trigger] key_text_from_bytes(b@ + suffix)) matches Some((t, c)) && c == b@.len())),
{
    match casper_types::Key::from_formatted_str(s) {
        Ok(k) => casper_types::bytesrepr::ToBytes::to_bytes(&k).ok(),
        Err(_) => None,
    }
}

/// The canonical text of the key serialized at the head of a byte string,
/// with the count of bytes it occupies: `Key::from_bytes` followed by
/// `Display`, a function of the bytes alone.
pub uninterp spec fn key_text_from_bytes(b: Seq<u8>) -> Option<(Seq<char>, int)>;

/// Relies on `Key`'s `FromBytes` impl (a tag byte selecting the variant,
/// then its fixed-width payload) and `Key`'s `Display` impl (texts such
/// as `Key::Hash(..)` over lowercase hex).
#[verifier::external_body]
pub(crate) fn key_decode(b: &[u8]) -> (r: Option<(String, usize)>)
    ensures
        r is Some <==> key_text_from_bytes(b@) is Some,
        r matches Some((s, n)) ==> (key_text_from_bytes(b@) == Some((s@, n as int)) && n
            <= b@.len()),
{
    match <casper_types::Key as casper_types::bytesrepr::FromBytes>::from_bytes(b) {
        Ok((k, rem)) => Some((k.to_string(), b.len() - rem.len())),
        Err(_) => None,
    }
}

/// The serialization of the unforgeable reference a formatted text
/// denotes, if it parses: `URef::from_formatted_str` followed by
/// `ToBytes`, a function of the text alone.
pub uninterp spec fn uref_bytes_from_text(s: Seq<char>) -> Option<Seq<u8>>;

/// Relies on `URef::from_formatted_str` (`uref-<hex>-<rights>`, the
/// rights validated against the declared bit patterns) and `URef`'s
/// `ToBytes` impl (32 address bytes and one access-rights byte).
/// `URef::from_bytes` reads back exactly those 33 bytes — the rights byte
/// re-passes the bit check it was built from — and `Display` renders the
/// result, whatever bytes follow: the last clause states that inverse.
#[verifier::external_body]
pub(crate) fn uref_encode(s: &str) -> (r: Option<Vec<u8>>)
    ensures
        r is Some <==> uref_bytes_from_text(s@) is Some,
        r matches Some(b) ==> (uref_bytes_from_text(s@) == Some(b@) && b@.len() == 33),
        r matches Some(b) ==> (forall|suffix: Seq<u8>|
            ((#[trigger] uref_text_from_bytes(b@ + suffix)) matches Some((t, c)) && c
                == b@.len())),
{
    match casper_types::URef::from_formatted_str(s) {
        Ok(u) => casper_types::bytesrepr::ToBytes::to_bytes(&u).ok(),
        Err(_) => None,
    }
}

/// The canonical text of the unforgeable reference at the head of a byte
/// string, with the count of bytes it occupies: `URef::from_bytes`
/// followed by `Display`, a function of the bytes alone.
pub uninterp spec fn uref_text_from_bytes(b: Seq<u8>) -> Option<(Seq<char>, int)>;

/// Relies on `URef`'s `FromBytes` impl (32 address bytes and one
/// access-rights byte) and `URef`'s `Display` impl.
#[verifier::external_body]
pub(crate) fn uref_decode(b: &[u8]) -> (r: Option<(String, usize)>)
    ensures
        r is Some <==> uref_text_from_bytes(b@) is Some,
        r matches Some((s, n)) ==> (uref_text_from_bytes(b@) == Some((s@, n as int)) && n
            <= b@.len()),
{
    match <casper_types::URef as casper_types::bytesrepr::FromBytes>::from_bytes(b) {
        Ok((u, rem)) => Some((u.to_string(), b.len() - rem.len())),
        Err(_) => None,
    }
}

/// The serialization of the public key a hex text denotes, if it parses:
/// `PublicKey::from_hex` followed by `ToBytes`, a function of the text
/// alone.
pub uninterp spec fn pubkey_bytes_from_text(s: Seq<char>) -> Option<Seq<u8>>;

/// Relies on `PublicKey::from_hex` (an algorithm tag digit pair, then the
/// key material in hex) and `PublicKey`'s `ToBytes` impl.
#[verifier::external_body]
pub(crate) fn pubkey_encode(s: &str) -> (r: Option<Vec<u8>>)
    ensures
        r is Some <==> pubkey_bytes_from_text(s@) is Some,
        r matches Some(b) ==> pubkey_bytes_from_text(s@) == Some(b@),
{
    match <casper_types::PublicKey as casper_types::crypto::AsymmetricType>::from_hex(s) {
        Ok(k) => casper_types::bytesrepr::ToBytes::to_bytes(&k).ok(),
        Err(_) => None,
    }
}

/// The canonical text of the public key at the head of a byte string,
/// with the count of bytes it occupies: `PublicKey::from_bytes` followed
/// by `Display`, a function of the bytes alone.
pub uninterp spec fn pubkey_text_from_bytes(b: Seq<u8>) -> Option<(Seq<char>, int)>;

/// Relies on `PublicKey`'s `FromBytes` impl (an algorithm tag byte, then
/// the key material, validated) and `PublicKey`'s `Display` impl.
#[verifier::external_body]
pub(crate) fn pubkey_decode(b: &[u8]) -> (r: Option<(String, usize)>)
    ensures
        r is Some <==> pubkey_text_from_bytes(b@) is Some,
        r matches Some((s, n)) ==> (pubkey_text_from_bytes(b@) == Some((s@, n as int)) && n
            <= b@.len()),
{
    match <casper_types::PublicKey as casper_types::bytesrepr::FromBytes>::from_bytes(b) {
        Ok((k, rem)) => Some((k.to_string(), b.len() - rem.len())),
        Err(_) => None,
    }
}

} // verus!
