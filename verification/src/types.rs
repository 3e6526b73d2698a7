//! The leaf codec: textual-to-binary conversion per primitive kind, and
//! its exact specification.  `encoded_leaf` and `decoded_leaf` state, for
//! every descriptor and every input, the bytes an encode produces and the
//! text and byte count a decode yields; the executable codec is proved to
//! match them exactly.

use vstd::prelude::*;

use crate::hexfmt::{all_hex_digits, hex_bytes_of, hex_of};
use crate::numeric::{
    all_digits, canonical_dec, dec_digits_of, dec_int_digits, dec_value, int_text_value, le_value, min_le_bytes,
    parse_int_value, u32_le_bytes, u32_of_le, u64_le_bytes, u64_of_le,
    i64_to_dec_chars, u64_to_dec_chars, push_u32_le, push_u64_le, read_u32_le, read_u64_le,
    parse_value, uint_text_value, unwrap32, unwrap64, wrap32, wrap64,
};
use crate::outside::{
    accepted_key_text, hex_decode, hex_encode, key_bytes_from_text, key_encode, key_decode, key_text_from_bytes,
    pubkey_bytes_from_text, pubkey_encode, pubkey_decode, pubkey_text_from_bytes, string_of,
    string_from_utf8, u128_bytes_to_dec, u128_dec_to_bytes, u256_bytes_to_dec, u256_dec_to_bytes,
    u512_bytes_to_dec, u512_dec_to_bytes, uref_bytes_from_text, uref_encode, uref_decode,
    uref_text_from_bytes,
};
use crate::schema::TypeDescriptor;
use crate::strutil::{chars_of, spec_split, split_chars};

verus! {

/// The error a marshalling operation reports.  Every public entry point
/// returns its errors; none panics.
#[derive(Debug)]
pub enum Error {
    /// A byte-array text lacked the `0x` hex prefix.
    InvalidHexString,
    /// A `0x` text held something other than an even run of hex digits.
    HexDecodeError,
    /// A supplied string does not parse into its declared leaf type.
    ParseError(String),
    /// A big unsigned integer's decimal text did not parse or overflowed.
    BigUintError(String),
    /// A value too large for its wire representation.
    SerializationError,
    /// A byte string too short or malformed for its declared type.
    DeserializationError,
    /// An unforgeable-reference text did not parse.
    InvalidURef,
    /// A public-key text did not parse.
    InvalidPublicKey,
    /// A malformed option, result, tuple, map or byte-array text.
    Formatting(String),
    /// An internal invariant violation.
    Other(String),
    /// A `Custom` reference has no matching registry entry.
    UnknownType(String),
    /// A required leaf has no supplied value at compose time.
    MissingRequiredValue(String),
    /// An enum discriminant matching no declared variant.
    VariantNotFound(u16),
}

/// The wire tag of an absent optional value.
pub const OPTION_NONE_TAG: u8 = 0;

/// The wire tag of a present optional value.
pub const OPTION_SOME_TAG: u8 = 1;

/// The wire tag of a result's error case.
pub const RESULT_ERR_TAG: u8 = 0;

/// The wire tag of a result's success case.
pub const RESULT_OK_TAG: u8 = 1;

/// The text denoting an absent optional value.
pub open spec fn none_text() -> Seq<char> {
    seq!['n', 'o', 'n', 'e']
}

/// The prefix denoting a present optional value.
pub open spec fn some_prefix() -> Seq<char> {
    seq!['s', 'o', 'm', 'e', ':']
}

/// The prefix denoting a result's success case.
pub open spec fn ok_prefix() -> Seq<char> {
    seq!['o', 'k', ':']
}

/// The prefix denoting a result's error case.
pub open spec fn err_prefix() -> Seq<char> {
    seq!['e', 'r', 'r', ':']
}

/// Whether `s` starts with prefix `p`.
pub open spec fn spec_has_prefix(s: Seq<char>, p: Seq<char>) -> bool {
    s.len() >= p.len() && s.take(p.len() as int) == p
}

/// The bytes the leaf codec produces for descriptor `ty` and text `text`,
/// or `None` where the text is rejected.  This is the wire layout: fixed
/// little-endian integers, length-prefixed minimal magnitudes for the big
/// integers, a 4-byte count before list and map elements, tag bytes for
/// options and results, raw bytes for fixed byte arrays, and nothing for
/// units.
pub open spec fn encoded_leaf(ty: TypeDescriptor, text: Seq<char>) -> Option<Seq<u8>>
    decreases ty.height(), 0nat, 0nat,
{
    match ty {
        TypeDescriptor::Bool => if text == seq!['t', 'r', 'u', 'e'] {
            Some(seq![1u8])
        } else if text == seq!['f', 'a', 'l', 's', 'e'] {
            Some(seq![0u8])
        } else {
            None
        },
        TypeDescriptor::I32 => match int_text_value(text) {
            Some(v) => if i32::MIN <= v <= i32::MAX {
                Some(u32_le_bytes(wrap32(v)))
            } else {
                None
            },
            None => None,
        },
        TypeDescriptor::I64 => match int_text_value(text) {
            Some(v) => if i64::MIN <= v <= i64::MAX {
                Some(u64_le_bytes(wrap64(v)))
            } else {
                None
            },
            None => None,
        },
        TypeDescriptor::U8 => match uint_text_value(text) {
            Some(v) => if v <= u8::MAX {
                Some(seq![v as u8])
            } else {
                None
            },
            None => None,
        },
        TypeDescriptor::U32 => match uint_text_value(text) {
            Some(v) => if v <= u32::MAX {
                Some(u32_le_bytes(v))
            } else {
                None
            },
            None => None,
        },
        TypeDescriptor::U64 => match uint_text_value(text) {
            Some(v) => if v <= u64::MAX {
                Some(u64_le_bytes(v))
            } else {
                None
            },
            None => None,
        },
        TypeDescriptor::U128 => if all_digits(text) && dec_value(text)
            < vstd::arithmetic::power2::pow2(128) {
            Some(big_bytes(dec_value(text)))
        } else {
            None
        },
        TypeDescriptor::U256 => if all_digits(text) && dec_value(text)
            < vstd::arithmetic::power2::pow2(256) {
            Some(big_bytes(dec_value(text)))
        } else {
            None
        },
        TypeDescriptor::U512 => if all_digits(text) && dec_value(text)
            < vstd::arithmetic::power2::pow2(512) {
            Some(big_bytes(dec_value(text)))
        } else {
            None
        },
        TypeDescriptor::String => {
            let utf8 = vstd::utf8::encode_utf8(text);
            if utf8.len() <= u32::MAX {
                Some(u32_le_bytes(utf8.len() as int) + utf8)
            } else {
                None
            }
        },
        TypeDescriptor::Key => if accepted_key_text(text) {
            key_bytes_from_text(text)
        } else {
            None
        },
        TypeDescriptor::URef => uref_bytes_from_text(text),
        TypeDescriptor::PublicKey => pubkey_bytes_from_text(text),
        TypeDescriptor::Unit => Some(Seq::<u8>::empty()),
        TypeDescriptor::Option(t) => if text == none_text() {
            Some(seq![OPTION_NONE_TAG])
        } else if spec_has_prefix(text, some_prefix()) {
            match encoded_leaf(*t, text.skip(5)) {
                Some(b) => Some(seq![OPTION_SOME_TAG] + b),
                None => None,
            }
        } else {
            None
        },
        TypeDescriptor::Result(ok_t, err_t) => if spec_has_prefix(text, err_prefix()) {
            match encoded_leaf(*err_t, text.skip(4)) {
                Some(b) => Some(seq![RESULT_ERR_TAG] + b),
                None => None,
            }
        } else if spec_has_prefix(text, ok_prefix()) {
            match encoded_leaf(*ok_t, text.skip(3)) {
                Some(b) => Some(seq![RESULT_OK_TAG] + b),
                None => None,
            }
        } else {
            None
        },
        TypeDescriptor::Tuple1(t) => encoded_leaf(*t, text),
        TypeDescriptor::Tuple2(a, b) => {
            let parts = spec_split(text, ',');
            if parts.len() == 2 {
                match (encoded_leaf(*a, parts[0]), encoded_leaf(*b, parts[1])) {
                    (Some(ba), Some(bb)) => Some(ba + bb),
                    _ => None,
                }
            } else {
                None
            }
        },
        TypeDescriptor::Tuple3(a, b, c) => {
            let parts = spec_split(text, ',');
            if parts.len() == 3 {
                match (encoded_leaf(*a, parts[0]), encoded_leaf(*b, parts[1]), encoded_leaf(
                    *c,
                    parts[2],
                )) {
                    (Some(ba), Some(bb), Some(bc)) => Some(ba + bb + bc),
                    _ => None,
                }
            } else {
                None
            }
        },
        TypeDescriptor::List(t) => encoded_seq(*t, spec_split(text, ',')),
        TypeDescriptor::MapOf(k, v) => {
            let parts = spec_split(text, ',');
            if parts.len() <= u32::MAX {
                match encoded_pairs(*k, *v, parts) {
                    Some(b) => Some(u32_le_bytes(parts.len() as int) + b),
                    None => None,
                }
            } else {
                None
            }
        },
        TypeDescriptor::ByteArray(n) => if spec_has_prefix(text, seq!['0', 'x']) {
            let rest = text.skip(2);
            if all_hex_digits(rest) && rest.len() % 2 == 0 && rest.len() == 2 * n {
                Some(hex_bytes_of(rest))
            } else {
                None
            }
        } else {
            let parts = spec_split(text, ',');
            if parts.len() == n && dec_bytes_ok(parts) {
                Some(dec_bytes_of(parts))
            } else {
                None
            }
        },
        TypeDescriptor::Custom(_) => None,
    }
}

/// A length byte followed by the minimal little-endian magnitude: the
/// wire form of the big unsigned integers.
pub open spec fn big_bytes(n: int) -> Seq<u8> {
    seq![min_le_bytes(n).len() as u8] + min_le_bytes(n)
}

/// A 4-byte element count followed by each text encoded with `ty`: the
/// wire form of a list.
pub open spec fn encoded_seq(ty: TypeDescriptor, texts: Seq<Seq<char>>) -> Option<Seq<u8>>
    decreases ty.height(), texts.len(), 2nat,
{
    if texts.len() <= u32::MAX {
        match encoded_each(ty, texts) {
            Some(b) => Some(u32_le_bytes(texts.len() as int) + b),
            None => None,
        }
    } else {
        None
    }
}

/// The concatenation of each text encoded with `ty`.
pub open spec fn encoded_each(ty: TypeDescriptor, texts: Seq<Seq<char>>) -> Option<Seq<u8>>
    decreases ty.height(), texts.len(), 1nat,
{
    if texts.len() == 0 {
        Some(Seq::<u8>::empty())
    } else {
        match (encoded_leaf(ty, texts[0]), encoded_each(ty, texts.drop_first())) {
            (Some(b), Some(rest)) => Some(b + rest),
            _ => None,
        }
    }
}

/// The concatenation of each `k:v` text encoded as a key-value pair.
pub open spec fn encoded_pairs(kt: TypeDescriptor, vt: TypeDescriptor, parts: Seq<Seq<char>>)
    -> Option<Seq<u8>>
    decreases vstd::math::max(kt.height() as int, vt.height() as int), parts.len(), 1nat,
{
    if parts.len() == 0 {
        Some(Seq::<u8>::empty())
    } else {
        let kv = spec_split(parts[0], ':');
        if kv.len() == 2 {
            match (encoded_leaf(kt, kv[0]), encoded_leaf(vt, kv[1]), encoded_pairs(
                kt,
                vt,
                parts.drop_first(),
            )) {
                (Some(bk), Some(bv), Some(rest)) => Some(bk + bv + rest),
                _ => None,
            }
        } else {
            None
        }
    }
}

/// Splitting a text run anywhere splits its encoding there too.
pub proof fn lemma_encoded_each_split(ty: TypeDescriptor, texts: Seq<Seq<char>>, i: int)
    requires
        0 <= i <= texts.len(),
    ensures
        encoded_each(ty, texts) == match (encoded_each(ty, texts.take(i)), encoded_each(
            ty,
            texts.skip(i),
        )) {
            (Some(a), Some(b)) => Some(a + b),
            _ => None::<Seq<u8>>,
        },
    decreases i,
{
    if i == 0 {
        assert(texts.take(0) =~~= Seq::<Seq<char>>::empty());
        assert(texts.skip(0) =~~= texts);
        if encoded_each(ty, texts) is Some {
            let b = encoded_each(ty, texts)->0;
            assert(Seq::<u8>::empty() + b =~= b);
        }
    } else {
        assert(texts.len() > 0);
        let rest = texts.drop_first();
        lemma_encoded_each_split(ty, rest, i - 1);
        assert(rest.take(i - 1) =~~= texts.take(i).drop_first());
        assert(rest.skip(i - 1) =~~= texts.skip(i));
        assert(texts.take(i)[0] == texts[0]);
        if encoded_leaf(ty, texts[0]) is Some && encoded_each(ty, rest.take(i - 1)) is Some
            && encoded_each(ty, rest.skip(i - 1)) is Some {
            let h = encoded_leaf(ty, texts[0])->0;
            let a = encoded_each(ty, rest.take(i - 1))->0;
            let b = encoded_each(ty, rest.skip(i - 1))->0;
            assert(h + (a + b) =~= (h + a) + b);
        }
    }
}

/// Splitting a pair run anywhere splits its encoding there too.
pub proof fn lemma_encoded_pairs_split(
    kt: TypeDescriptor,
    vt: TypeDescriptor,
    parts: Seq<Seq<char>>,
    i: int,
)
    requires
        0 <= i <= parts.len(),
    ensures
        encoded_pairs(kt, vt, parts) == match (encoded_pairs(kt, vt, parts.take(i)), encoded_pairs(
            kt,
            vt,
            parts.skip(i),
        )) {
            (Some(a), Some(b)) => Some(a + b),
            _ => None::<Seq<u8>>,
        },
    decreases i,
{
    if i == 0 {
        assert(parts.take(0) =~~= Seq::<Seq<char>>::empty());
        assert(parts.skip(0) =~~= parts);
        if encoded_pairs(kt, vt, parts) is Some {
            let b = encoded_pairs(kt, vt, parts)->0;
            assert(Seq::<u8>::empty() + b =~= b);
        }
    } else {
        assert(parts.len() > 0);
        let rest = parts.drop_first();
        lemma_encoded_pairs_split(kt, vt, rest, i - 1);
        assert(rest.take(i - 1) =~~= parts.take(i).drop_first());
        assert(rest.skip(i - 1) =~~= parts.skip(i));
        assert(parts.take(i)[0] == parts[0]);
        let kv = spec_split(parts[0], ':');
        if kv.len() == 2 && encoded_leaf(kt, kv[0]) is Some && encoded_leaf(vt, kv[1]) is Some
            && encoded_pairs(kt, vt, rest.take(i - 1)) is Some && encoded_pairs(
            kt,
            vt,
            rest.skip(i - 1),
        ) is Some {
            let bk = encoded_leaf(kt, kv[0])->0;
            let bv = encoded_leaf(vt, kv[1])->0;
            let a = encoded_pairs(kt, vt, rest.take(i - 1))->0;
            let b = encoded_pairs(kt, vt, rest.skip(i - 1))->0;
            assert(bk + bv + (a + b) =~= (bk + bv + a) + b);
        }
    }
}

/// Whether every part is the decimal text of one byte value.
pub open spec fn dec_bytes_ok(parts: Seq<Seq<char>>) -> bool {
    forall|i: int| 0 <= i < parts.len() ==> ((#[trigger] uint_text_value(parts[i])) matches Some(v)
        && 0 <= v <= u8::MAX)
}

/// The byte each part denotes in decimal.
pub open spec fn dec_bytes_of(parts: Seq<Seq<char>>) -> Seq<u8> {
    Seq::new(parts.len(), |i: int| (uint_text_value(parts[i])->0) as u8)
}

/// The parts joined with `sep` between them.
pub open spec fn join_texts(parts: Seq<Seq<char>>, sep: Seq<char>) -> Seq<char>
    decreases parts.len(),
{
    if parts.len() == 0 {
        Seq::<char>::empty()
    } else if parts.len() == 1 {
        parts[0]
    } else {
        parts[0] + sep + join_texts(parts.drop_first(), sep)
    }
}

/// The bracketed, one-element-per-line rendering of decoded list
/// elements.
pub open spec fn render_list(elems: Seq<Seq<char>>) -> Seq<char> {
    if elems.len() == 0 {
        seq!['[', ']']
    } else {
        seq!['[', '\n'] + join_texts(
            elems.map_values(|e: Seq<char>| seq![' ', ' '] + e),
            seq![',', '\n'],
        ) + seq!['\n', ']']
    }
}

/// The braced rendering of decoded map entries, each already in
/// `key:value` form.
pub open spec fn render_map(entries: Seq<Seq<char>>) -> Seq<char> {
    seq!['{'] + join_texts(entries, seq![',']) + seq!['}']
}

/// The text and consumed byte count the leaf codec yields for descriptor
/// `ty` at the head of `b`, or `None` where the bytes are rejected.  The
/// unconsumed remainder is the suffix of `b` after the count.
pub open spec fn decoded_leaf(ty: TypeDescriptor, b: Seq<u8>) -> Option<(Seq<char>, int)>
    decreases ty.height(), 0nat, 0nat,
{
    match ty {
        TypeDescriptor::Bool => if b.len() >= 1 && b[0] == 1 {
            Some((seq!['t', 'r', 'u', 'e'], 1int))
        } else if b.len() >= 1 && b[0] == 0 {
            Some((seq!['f', 'a', 'l', 's', 'e'], 1int))
        } else {
            None
        },
        TypeDescriptor::I32 => if b.len() >= 4 {
            Some((dec_int_digits(unwrap32(u32_of_le(b.take(4)))), 4int))
        } else {
            None
        },
        TypeDescriptor::I64 => if b.len() >= 8 {
            Some((dec_int_digits(unwrap64(u64_of_le(b.take(8)))), 8int))
        } else {
            None
        },
        TypeDescriptor::U8 => if b.len() >= 1 {
            Some((dec_digits_of(b[0] as int), 1int))
        } else {
            None
        },
        TypeDescriptor::U32 => if b.len() >= 4 {
            Some((dec_digits_of(u32_of_le(b.take(4))), 4int))
        } else {
            None
        },
        TypeDescriptor::U64 => if b.len() >= 8 {
            Some((dec_digits_of(u64_of_le(b.take(8))), 8int))
        } else {
            None
        },
        TypeDescriptor::U128 => if b.len() >= 1 && b[0] <= 16 && b.len() >= 1 + b[0] {
            Some((dec_digits_of(le_value(b.subrange(1, 1 + b[0]))), 1 + b[0]))
        } else {
            None
        },
        TypeDescriptor::U256 => if b.len() >= 1 && b[0] <= 32 && b.len() >= 1 + b[0] {
            Some((dec_digits_of(le_value(b.subrange(1, 1 + b[0]))), 1 + b[0]))
        } else {
            None
        },
        TypeDescriptor::U512 => if b.len() >= 1 && b[0] <= 64 && b.len() >= 1 + b[0] {
            Some((dec_digits_of(le_value(b.subrange(1, 1 + b[0]))), 1 + b[0]))
        } else {
            None
        },
        TypeDescriptor::String => if b.len() >= 4 {
            let n = u32_of_le(b.take(4));
            if b.len() >= 4 + n && vstd::utf8::valid_utf8(b.subrange(4, 4 + n)) {
                Some((vstd::utf8::decode_utf8(b.subrange(4, 4 + n)), 4 + n))
            } else {
                None
            }
        } else {
            None
        },
        TypeDescriptor::Key => match key_text_from_bytes(b) {
            Some((t, c)) => if 0 <= c <= b.len() {
                Some((t, c))
            } else {
                None
            },
            None => None,
        },
        TypeDescriptor::URef => match uref_text_from_bytes(b) {
            Some((t, c)) => if 0 <= c <= b.len() {
                Some((t, c))
            } else {
                None
            },
            None => None,
        },
        TypeDescriptor::PublicKey => match pubkey_text_from_bytes(b) {
            Some((t, c)) => if 0 <= c <= b.len() {
                Some((t, c))
            } else {
                None
            },
            None => None,
        },
        TypeDescriptor::Unit => Some((Seq::<char>::empty(), 0int)),
        TypeDescriptor::Option(t) => if b.len() >= 1 && b[0] == OPTION_NONE_TAG {
            Some((seq!['n', 'u', 'l', 'l'], 1int))
        } else if b.len() >= 1 && b[0] == OPTION_SOME_TAG {
            match decoded_leaf(*t, b.skip(1)) {
                Some((t1, c1)) => Some((t1, 1 + c1)),
                None => None,
            }
        } else {
            None
        },
        TypeDescriptor::Result(ok_t, err_t) => if b.len() >= 1 && b[0] == RESULT_OK_TAG {
            match decoded_leaf(*ok_t, b.skip(1)) {
                Some((t1, c1)) => Some((seq!['O', 'k', '('] + t1 + seq![')'], 1 + c1)),
                None => None,
            }
        } else if b.len() >= 1 && b[0] == RESULT_ERR_TAG {
            match decoded_leaf(*err_t, b.skip(1)) {
                Some((t1, c1)) => Some((seq!['E', 'r', 'r', '('] + t1 + seq![')'], 1 + c1)),
                None => None,
            }
        } else {
            None
        },
        TypeDescriptor::Tuple1(t) => match decoded_leaf(*t, b) {
            Some((t1, c1)) => Some((seq!['('] + t1 + seq![',', ')'], c1)),
            None => None,
        },
        TypeDescriptor::Tuple2(x, y) => match decoded_leaf(*x, b) {
            Some((t1, c1)) => match decoded_leaf(*y, b.skip(c1)) {
                Some((t2, c2)) => Some(
                    (seq!['('] + t1 + seq![',', ' '] + t2 + seq![')'], c1 + c2),
                ),
                None => None,
            },
            None => None,
        },
        TypeDescriptor::Tuple3(x, y, z) => match decoded_leaf(*x, b) {
            Some((t1, c1)) => match decoded_leaf(*y, b.skip(c1)) {
                Some((t2, c2)) => match decoded_leaf(*z, b.skip(c1 + c2)) {
                    Some((t3, c3)) => Some(
                        (
                            seq!['('] + t1 + seq![',', ' '] + t2 + seq![',', ' '] + t3 + seq![')'],
                            c1 + c2 + c3,
                        ),
                    ),
                    None => None,
                },
                None => None,
            },
            None => None,
        },
        TypeDescriptor::List(t) => if b.len() >= 4 {
            let n = u32_of_le(b.take(4));
            match decoded_elems(*t, b.skip(4), n) {
                Some((ts, cs)) => Some((render_list(ts), 4 + cs)),
                None => None,
            }
        } else {
            None
        },
        TypeDescriptor::MapOf(k, v) => if b.len() >= 4 {
            let n = u32_of_le(b.take(4));
            match decoded_kv_pairs(*k, *v, b.skip(4), n) {
                Some((es, cs)) => Some((render_map(es), 4 + cs)),
                None => None,
            }
        } else {
            None
        },
        TypeDescriptor::ByteArray(n) => if b.len() >= n {
            Some((seq!['0', 'x'] + hex_of(b.take(n as int)), n as int))
        } else {
            None
        },
        TypeDescriptor::Custom(_) => None,
    }
}

/// The texts of `n` consecutive decoded elements, with the byte count
/// they consume together.
pub open spec fn decoded_elems(ty: TypeDescriptor, b: Seq<u8>, n: int) -> Option<
    (Seq<Seq<char>>, int),
>
    decreases ty.height(), n, 1nat,
{
    if n <= 0 {
        Some((Seq::<Seq<char>>::empty(), 0int))
    } else {
        match decoded_leaf(ty, b) {
            Some((t, c)) => match decoded_elems(ty, b.skip(c), n - 1) {
                Some((ts, cs)) => Some((seq![t] + ts, c + cs)),
                None => None,
            },
            None => None,
        }
    }
}

/// The `key:value` texts of `n` consecutive decoded pairs, with the byte
/// count they consume together.
pub open spec fn decoded_kv_pairs(kt: TypeDescriptor, vt: TypeDescriptor, b: Seq<u8>, n: int)
    -> Option<(Seq<Seq<char>>, int)>
    decreases vstd::math::max(kt.height() as int, vt.height() as int), n, 1nat,
{
    if n <= 0 {
        Some((Seq::<Seq<char>>::empty(), 0int))
    } else {
        match decoded_leaf(kt, b) {
            Some((t1, c1)) => match decoded_leaf(vt, b.skip(c1)) {
                Some((t2, c2)) => match decoded_kv_pairs(kt, vt, b.skip(c1 + c2), n - 1) {
                    Some((es, cs)) => Some((seq![t1 + seq![':'] + t2] + es, c1 + c2 + cs)),
                    None => None,
                },
                None => None,
            },
            None => None,
        }
    }
}

/// A decode never consumes more bytes than it was given.
pub proof fn lemma_decoded_consumed(ty: TypeDescriptor, b: Seq<u8>)
    ensures
        decoded_leaf(ty, b) matches Some((t, c)) ==> 0 <= c <= b.len(),
    decreases ty.height(), 0nat, 0nat,
{
    match ty {
        TypeDescriptor::Option(t) => {
            if b.len() >= 1 && b[0] == OPTION_SOME_TAG {
                lemma_decoded_consumed(*t, b.skip(1));
            }
        },
        TypeDescriptor::Result(ok_t, err_t) => {
            if b.len() >= 1 {
                lemma_decoded_consumed(*ok_t, b.skip(1));
                lemma_decoded_consumed(*err_t, b.skip(1));
            }
        },
        TypeDescriptor::Tuple1(t) => {
            lemma_decoded_consumed(*t, b);
        },
        TypeDescriptor::Tuple2(x, y) => {
            lemma_decoded_consumed(*x, b);
            if decoded_leaf(*x, b) is Some {
                let (t1, c1) = decoded_leaf(*x, b)->0;
                lemma_decoded_consumed(*y, b.skip(c1));
            }
        },
        TypeDescriptor::Tuple3(x, y, z) => {
            lemma_decoded_consumed(*x, b);
            if decoded_leaf(*x, b) is Some {
                let (t1, c1) = decoded_leaf(*x, b)->0;
                lemma_decoded_consumed(*y, b.skip(c1));
                if decoded_leaf(*y, b.skip(c1)) is Some {
                    let (t2, c2) = decoded_leaf(*y, b.skip(c1))->0;
                    assert(b.skip(c1).skip(c2) =~= b.skip(c1 + c2));
                    lemma_decoded_consumed(*z, b.skip(c1 + c2));
                }
            }
        },
        TypeDescriptor::List(t) => {
            if b.len() >= 4 {
                lemma_decoded_elems_consumed(*t, b.skip(4), u32_of_le(b.take(4)));
            }
        },
        TypeDescriptor::MapOf(k, v) => {
            if b.len() >= 4 {
                lemma_decoded_kv_consumed(*k, *v, b.skip(4), u32_of_le(b.take(4)));
            }
        },
        _ => {},
    }
}

/// A run of element decodes never consumes more bytes than given.
pub proof fn lemma_decoded_elems_consumed(ty: TypeDescriptor, b: Seq<u8>, n: int)
    ensures
        decoded_elems(ty, b, n) matches Some((ts, cs)) ==> (0 <= cs <= b.len() && ts.len()
            == (if n <= 0 {
            0int
        } else {
            n
        })),
    decreases ty.height(), n, 1nat,
{
    if n > 0 {
        lemma_decoded_consumed(ty, b);
        if decoded_leaf(ty, b) is Some {
            let (t, c) = decoded_leaf(ty, b)->0;
            lemma_decoded_elems_consumed(ty, b.skip(c), n - 1);
        }
    }
}

/// A run of pair decodes never consumes more bytes than given.
pub proof fn lemma_decoded_kv_consumed(kt: TypeDescriptor, vt: TypeDescriptor, b: Seq<u8>, n: int)
    ensures
        decoded_kv_pairs(kt, vt, b, n) matches Some((es, cs)) ==> (0 <= cs <= b.len() && es.len()
            == (if n <= 0 {
            0int
        } else {
            n
        })),
    decreases vstd::math::max(kt.height() as int, vt.height() as int), n, 1nat,
{
    if n > 0 {
        lemma_decoded_consumed(kt, b);
        if decoded_leaf(kt, b) is Some {
            let (t1, c1) = decoded_leaf(kt, b)->0;
            lemma_decoded_consumed(vt, b.skip(c1));
            if decoded_leaf(vt, b.skip(c1)) is Some {
                let (t2, c2) = decoded_leaf(vt, b.skip(c1))->0;
                assert(b.skip(c1).skip(c2) =~= b.skip(c1 + c2));
                lemma_decoded_kv_consumed(kt, vt, b.skip(c1 + c2), n - 1);
            }
        }
    }
}

/// Join the parts with `sep` between them.
pub fn join_exec(parts: &Vec<Vec<char>>, sep: &[char]) -> (r: Vec<char>)
    ensures
        r@ =~= join_texts(parts.deep_view(), sep@),
{
    let ghost all = parts.deep_view();
    if parts.len() == 0 {
        return Vec::new();
    }
    let mut i: usize = parts.len() - 1;
    let mut acc: Vec<char> = Vec::new();
    acc.extend_from_slice(parts[i].as_slice());
    proof {
        assert(parts.deep_view()[i as int] =~= parts@[i as int]@);
        assert(all.skip(i as int) =~~= seq![all[i as int]]);
        assert(join_texts(all.skip(i as int), sep@) =~= all[i as int]);
    }
    while i > 0
        invariant
            0 <= i < parts@.len(),
            all =~~= parts.deep_view(),
            acc@ =~= join_texts(all.skip(i as int), sep@),
        decreases i,
    {
        i = i - 1;
        let mut next: Vec<char> = Vec::new();
        next.extend_from_slice(parts[i].as_slice());
        next.extend_from_slice(sep);
        next.append(&mut acc);
        proof {
            assert(parts.deep_view()[i as int] =~= parts@[i as int]@);
            let tail = all.skip(i as int);
            assert(tail.len() >= 2);
            assert(tail[0] =~= all[i as int]);
            assert(tail.drop_first() =~~= all.skip(i + 1));
            assert(join_texts(tail, sep@) =~= tail[0] + sep@ + join_texts(
                all.skip(i + 1),
                sep@,
            ));
        }
        acc = next;
    }
    proof {
        assert(all.skip(0) =~~= all);
    }
    acc
}

/// Render decoded list elements, bracketed and one per line.
pub fn render_list_exec(texts: &Vec<Vec<char>>) -> (r: Vec<char>)
    ensures
        r@ =~= render_list(texts.deep_view()),
{
    let ghost all = texts.deep_view();
    if texts.len() == 0 {
        let mut out: Vec<char> = Vec::new();
        out.push('[');
        out.push(']');
        proof {
            assert(out@ =~= seq!['[', ']']);
        }
        return out;
    }
    let mut indented: Vec<Vec<char>> = Vec::new();
    let mut i: usize = 0;
    while i < texts.len()
        invariant
            0 <= i <= texts@.len(),
            all =~~= texts.deep_view(),
            indented.deep_view() =~~= all.take(i as int).map_values(
                |e: Seq<char>| seq![' ', ' '] + e,
            ),
        decreases texts@.len() - i,
    {
        proof {
            assert(texts.deep_view()[i as int] =~= texts@[i as int]@);
        }
        let mut entry: Vec<char> = Vec::new();
        entry.push(' ');
        entry.push(' ');
        entry.extend_from_slice(texts[i].as_slice());
        proof {
            assert(entry@ =~= seq![' ', ' '] + all[i as int]);
        }
        let ghost old_deep = indented.deep_view();
        let ghost ev = entry@;
        indented.push(entry);
        proof {
            assert(indented.deep_view() =~~= old_deep.push(ev));
            assert(indented.deep_view() =~~= all.take(i + 1).map_values(
                |e: Seq<char>| seq![' ', ' '] + e,
            ));
        }
        i = i + 1;
    }
    proof {
        assert(all.take(all.len() as int) =~~= all);
    }
    let body = join_exec(&indented, &[',', '\n']);
    let mut out: Vec<char> = Vec::new();
    out.push('[');
    out.push('\n');
    let mut mid = body;
    out.append(&mut mid);
    out.push('\n');
    out.push(']');
    proof {
        assert((&[',', '\n'])@ =~= seq![',', '\n']);
        assert(out@ =~= render_list(all));
    }
    out
}

/// Render decoded map entries in braces.
fn render_map_exec(entries: &Vec<Vec<char>>) -> (r: Vec<char>)
    ensures
        r@ =~= render_map(entries.deep_view()),
{
    let body = join_exec(entries, &[',']);
    let mut out: Vec<char> = Vec::new();
    out.push('{');
    let mut mid = body;
    out.append(&mut mid);
    out.push('}');
    proof {
        assert((&[','])@ =~= seq![',']);
        assert(out@ =~= render_map(entries.deep_view()));
    }
    out
}

/// Decode one leaf value from the head of `input`: yield its text and the
/// count of bytes consumed; the remainder is the rest of `input`.
/// Succeeds exactly where [`decoded_leaf`] accepts the bytes, and then
/// returns exactly that text and count.
pub fn from_bytes(ty: &TypeDescriptor, input: &[u8]) -> (r: Result<(String, usize), Error>)
    ensures
        r is Ok <==> decoded_leaf(*ty, input@) is Some,
        r matches Ok(p) ==> decoded_leaf(*ty, input@) == Some((p.0@, p.1 as int)),
        r matches Err(e) ==> fault_matches(e, decode_fault(*ty, input@)),
{
    match from_bytes_chars(ty, input) {
        Ok((t, c)) => Ok((string_of(t.as_slice()), c)),
        Err(e) => Err(e),
    }
}

/// Decode one leaf value from the head of `b`, as characters.
#[verifier::loop_isolation(false)]
#[verifier::rlimit(100)]
pub fn from_bytes_chars(ty: &TypeDescriptor, b: &[u8]) -> (r: Result<(Vec<char>, usize), Error>)
    ensures
        r is Ok <==> decoded_leaf(*ty, b@) is Some,
        r matches Ok(p) ==> decoded_leaf(*ty, b@) == Some((p.0@, p.1 as int)),
        r matches Err(e) ==> fault_matches(e, decode_fault(*ty, b@)),
    decreases ty.height(), 0nat, 1nat,
{
    match ty {
        TypeDescriptor::Option(t) => {
            if b.len() >= 1 && b[0] == OPTION_NONE_TAG {
                let mut out: Vec<char> = Vec::new();
                out.push('n');
                out.push('u');
                out.push('l');
                out.push('l');
                proof {
                    assert(out@ =~= seq!['n', 'u', 'l', 'l']);
                }
                Ok((out, 1))
            } else if b.len() >= 1 && b[0] == OPTION_SOME_TAG {
                let rest = vstd::slice::slice_subrange(b, 1, b.len());
                proof {
                    assert(rest@ =~= b@.skip(1));
                }
                match from_bytes_chars(&**t, rest) {
                    Ok((t1, c1)) => {
                        proof {
                            lemma_decoded_consumed(**t, b@.skip(1));
                        }
                        Ok((t1, 1 + c1))
                    },
                    Err(e) => Err(e),
                }
            } else {
                Err(Error::DeserializationError)
            }
        },
        TypeDescriptor::Result(ok_t, err_t) => decode_result_leaf(ty, &**ok_t, &**err_t, b),
        TypeDescriptor::Tuple1(t) => {
            match from_bytes_chars(&**t, b) {
                Ok((t1, c1)) => {
                    let mut out: Vec<char> = Vec::new();
                    out.push('(');
                    let mut mid = t1;
                    out.append(&mut mid);
                    out.push(',');
                    out.push(')');
                    proof {
                        let (tt, cc) = decoded_leaf(**t, b@)->0;
                        assert(out@ =~= seq!['('] + tt + seq![',', ')']);
                    }
                    Ok((out, c1))
                },
                Err(e) => Err(e),
            }
        },
        TypeDescriptor::Tuple2(x, y) => decode_tuple2_leaf(ty, &**x, &**y, b),
        TypeDescriptor::Tuple3(x, y, z) => decode_tuple3_leaf(ty, &**x, &**y, &**z, b),
        TypeDescriptor::List(t) => {
            if b.len() < 4 {
                return Err(Error::DeserializationError);
            }
            let n = read_u32_le(b[0], b[1], b[2], b[3]);
            proof {
                assert(b@.take(4) =~= seq![b@[0], b@[1], b@[2], b@[3]]);
            }
            let rest = vstd::slice::slice_subrange(b, 4, b.len());
            proof {
                assert(rest@ =~= b@.skip(4));
            }
            match decode_elems(&**t, rest, n) {
                Ok((texts, cs)) => {
                    proof {
                        lemma_decoded_elems_consumed(**t, b@.skip(4), n as int);
                    }
                    Ok((render_list_exec(&texts), 4 + cs))
                },
                Err(e) => Err(e),
            }
        },
        TypeDescriptor::MapOf(k, v) => {
            if b.len() < 4 {
                return Err(Error::DeserializationError);
            }
            let n = read_u32_le(b[0], b[1], b[2], b[3]);
            proof {
                assert(b@.take(4) =~= seq![b@[0], b@[1], b@[2], b@[3]]);
            }
            let rest = vstd::slice::slice_subrange(b, 4, b.len());
            proof {
                assert(rest@ =~= b@.skip(4));
            }
            match decode_kv_pairs(&**k, &**v, rest, n) {
                Ok((entries, cs)) => {
                    proof {
                        lemma_decoded_kv_consumed(**k, **v, b@.skip(4), n as int);
                    }
                    Ok((render_map_exec(&entries), 4 + cs))
                },
                Err(e) => Err(e),
            }
        },
        _ => decode_simple_leaf(ty, b),
    }
}

/// Decode a leaf whose layout needs no recursion: numeric kinds.
#[verifier::loop_isolation(false)]
#[verifier::rlimit(100)]
fn decode_simple_leaf(ty: &TypeDescriptor, b: &[u8]) -> (r: Result<(Vec<char>, usize), Error>)
    requires
        !(*ty matches TypeDescriptor::Option(_)),
        !(*ty matches TypeDescriptor::Result(_, _)),
        !(*ty matches TypeDescriptor::Tuple1(_)),
        !(*ty matches TypeDescriptor::Tuple2(_, _)),
        !(*ty matches TypeDescriptor::Tuple3(_, _, _)),
        !(*ty matches TypeDescriptor::List(_)),
        !(*ty matches TypeDescriptor::MapOf(_, _)),
    ensures
        r is Ok <==> decoded_leaf(*ty, b@) is Some,
        r matches Ok(p) ==> decoded_leaf(*ty, b@) == Some((p.0@, p.1 as int)),
        r matches Err(e) ==> fault_matches(e, decode_fault(*ty, b@)),
{
    match ty {
        TypeDescriptor::Bool => {
            if b.len() >= 1 && b[0] == 1 {
                let mut t: Vec<char> = Vec::new();
                t.push('t');
                t.push('r');
                t.push('u');
                t.push('e');
                proof {
                    assert(t@ =~= seq!['t', 'r', 'u', 'e']);
                }
                Ok((t, 1))
            } else if b.len() >= 1 && b[0] == 0 {
                let mut t: Vec<char> = Vec::new();
                t.push('f');
                t.push('a');
                t.push('l');
                t.push('s');
                t.push('e');
                proof {
                    assert(t@ =~= seq!['f', 'a', 'l', 's', 'e']);
                }
                Ok((t, 1))
            } else {
                Err(Error::DeserializationError)
            }
        },
        TypeDescriptor::I32 => {
            if b.len() >= 4 {
                let u = read_u32_le(b[0], b[1], b[2], b[3]);
                proof {
                    assert(b@.take(4) =~= seq![b@[0], b@[1], b@[2], b@[3]]);
                }
                let sv: i64 = if u >= 0x80000000u32 {
                    u as i64 - 0x100000000i64
                } else {
                    u as i64
                };
                let t = i64_to_dec_chars(sv);
                proof {
                    assert(sv as int == unwrap32(u32_of_le(b@.take(4))));
                }
                Ok((t, 4))
            } else {
                Err(Error::DeserializationError)
            }
        },
        TypeDescriptor::I64 => {
            if b.len() >= 8 {
                let s8 = vstd::slice::slice_subrange(b, 0, 8);
                proof {
                    assert(s8@ =~= b@.take(8));
                }
                let u = read_u64_le(s8);
                let sv: i64 = if u >= 0x8000000000000000u64 {
                    let back: u64 = u64::MAX - u;
                    -(back as i64) - 1
                } else {
                    u as i64
                };
                let t = i64_to_dec_chars(sv);
                proof {
                    assert(sv as int == unwrap64(u64_of_le(b@.take(8))));
                }
                Ok((t, 8))
            } else {
                Err(Error::DeserializationError)
            }
        },
        TypeDescriptor::U8 => {
            if b.len() >= 1 {
                Ok((u64_to_dec_chars(b[0] as u64), 1))
            } else {
                Err(Error::DeserializationError)
            }
        },
        TypeDescriptor::U32 => {
            if b.len() >= 4 {
                let u = read_u32_le(b[0], b[1], b[2], b[3]);
                proof {
                    assert(b@.take(4) =~= seq![b@[0], b@[1], b@[2], b@[3]]);
                }
                Ok((u64_to_dec_chars(u as u64), 4))
            } else {
                Err(Error::DeserializationError)
            }
        },
        TypeDescriptor::U64 => {
            if b.len() >= 8 {
                let s8 = vstd::slice::slice_subrange(b, 0, 8);
                proof {
                    assert(s8@ =~= b@.take(8));
                }
                let u = read_u64_le(s8);
                Ok((u64_to_dec_chars(u), 8))
            } else {
                Err(Error::DeserializationError)
            }
        },
        TypeDescriptor::U128 => {
            match u128_bytes_to_dec(b) {
                Some((s, c)) => Ok((chars_of(s.as_str()), c)),
                None => Err(Error::DeserializationError),
            }
        },
        TypeDescriptor::U256 => {
            match u256_bytes_to_dec(b) {
                Some((s, c)) => Ok((chars_of(s.as_str()), c)),
                None => Err(Error::DeserializationError),
            }
        },
        TypeDescriptor::U512 => {
            match u512_bytes_to_dec(b) {
                Some((s, c)) => Ok((chars_of(s.as_str()), c)),
                None => Err(Error::DeserializationError),
            }
        },
        TypeDescriptor::String => {
            if b.len() < 4 {
                return Err(Error::DeserializationError);
            }
            let n = read_u32_le(b[0], b[1], b[2], b[3]);
            proof {
                assert(b@.take(4) =~= seq![b@[0], b@[1], b@[2], b@[3]]);
            }
            if b.len() - 4 < n as usize {
                return Err(Error::DeserializationError);
            }
            let payload = vstd::slice::slice_subrange(b, 4, 4 + n as usize);
            proof {
                assert(payload@ =~= b@.subrange(4, 4 + n as int));
            }
            let mut bytes: Vec<u8> = Vec::new();
            bytes.extend_from_slice(payload);
            proof {
                assert(bytes@ =~= payload@);
            }
            match string_from_utf8(bytes) {
                Some(s) => Ok((chars_of(s.as_str()), 4 + n as usize)),
                None => Err(Error::DeserializationError),
            }
        },
        TypeDescriptor::Key => {
            match key_decode(b) {
                Some((s, c)) => Ok((chars_of(s.as_str()), c)),
                None => Err(Error::DeserializationError),
            }
        },
        TypeDescriptor::URef => {
            match uref_decode(b) {
                Some((s, c)) => Ok((chars_of(s.as_str()), c)),
                None => Err(Error::DeserializationError),
            }
        },
        TypeDescriptor::PublicKey => {
            match pubkey_decode(b) {
                Some((s, c)) => Ok((chars_of(s.as_str()), c)),
                None => Err(Error::DeserializationError),
            }
        },
        TypeDescriptor::Unit => Ok((Vec::new(), 0)),
        TypeDescriptor::ByteArray(n) => {
            if b.len() < *n as usize {
                return Err(Error::DeserializationError);
            }
            let head = vstd::slice::slice_subrange(b, 0, *n as usize);
            proof {
                assert(head@ =~= b@.take(*n as int));
            }
            let hexed = hex_encode(head);
            let mut out: Vec<char> = Vec::new();
            out.push('0');
            out.push('x');
            let mut mid = chars_of(hexed.as_str());
            out.append(&mut mid);
            proof {
                assert(out@ =~= seq!['0', 'x'] + hex_of(b@.take(*n as int)));
            }
            Ok((out, *n as usize))
        },
        TypeDescriptor::Custom(name) => Err(Error::Formatting(name.clone())),
        _ => vstd::pervasive::unreached(),
    }
}

/// Decode a result leaf: a tag byte, then the matching case's payload.
#[verifier::loop_isolation(false)]
fn decode_result_leaf(
    ty: &TypeDescriptor,
    ok_t: &TypeDescriptor,
    err_t: &TypeDescriptor,
    b: &[u8],
) -> (r: Result<(Vec<char>, usize), Error>)
    requires
        *ty == TypeDescriptor::Result(Box::new(*ok_t), Box::new(*err_t)),
    ensures
        r is Ok <==> decoded_leaf(*ty, b@) is Some,
        r matches Ok(p) ==> decoded_leaf(*ty, b@) == Some((p.0@, p.1 as int)),
        r matches Err(e) ==> fault_matches(e, decode_fault(*ty, b@)),
    decreases ty.height(), 0nat, 0nat,
{
    if b.len() >= 1 && b[0] == RESULT_OK_TAG {
        let rest = vstd::slice::slice_subrange(b, 1, b.len());
        proof {
            assert(rest@ =~= b@.skip(1));
        }
        match from_bytes_chars(ok_t, rest) {
            Ok((t1, c1)) => {
                let mut out: Vec<char> = Vec::new();
                out.push('O');
                out.push('k');
                out.push('(');
                let mut mid = t1;
                out.append(&mut mid);
                out.push(')');
                proof {
                    lemma_decoded_consumed(*ok_t, b@.skip(1));
                    let (tt, cc) = decoded_leaf(*ok_t, b@.skip(1))->0;
                    assert(out@ =~= seq!['O', 'k', '('] + tt + seq![')']);
                }
                Ok((out, 1 + c1))
            },
            Err(e) => Err(e),
        }
    } else if b.len() >= 1 && b[0] == RESULT_ERR_TAG {
        let rest = vstd::slice::slice_subrange(b, 1, b.len());
        proof {
            assert(rest@ =~= b@.skip(1));
        }
        match from_bytes_chars(err_t, rest) {
            Ok((t1, c1)) => {
                let mut out: Vec<char> = Vec::new();
                out.push('E');
                out.push('r');
                out.push('r');
                out.push('(');
                let mut mid = t1;
                out.append(&mut mid);
                out.push(')');
                proof {
                    lemma_decoded_consumed(*err_t, b@.skip(1));
                    let (tt, cc) = decoded_leaf(*err_t, b@.skip(1))->0;
                    assert(out@ =~= seq!['E', 'r', 'r', '('] + tt + seq![')']);
                }
                Ok((out, 1 + c1))
            },
            Err(e) => Err(e),
        }
    } else {
        Err(Error::DeserializationError)
    }
}

/// Decode a two-slot tuple leaf: both slots in sequence, rendered in
/// parentheses.
#[verifier::loop_isolation(false)]
fn decode_tuple2_leaf(
    ty: &TypeDescriptor,
    x: &TypeDescriptor,
    y: &TypeDescriptor,
    b: &[u8],
) -> (r: Result<(Vec<char>, usize), Error>)
    requires
        *ty == TypeDescriptor::Tuple2(Box::new(*x), Box::new(*y)),
    ensures
        r is Ok <==> decoded_leaf(*ty, b@) is Some,
        r matches Ok(p) ==> decoded_leaf(*ty, b@) == Some((p.0@, p.1 as int)),
        r matches Err(e) ==> fault_matches(e, decode_fault(*ty, b@)),
    decreases ty.height(), 0nat, 0nat,
{
    let (t1, c1) = match from_bytes_chars(x, b) {
        Ok(p) => p,
        Err(e) => {
            return Err(e);
        },
    };
    proof {
        lemma_decoded_consumed(*x, b@);
    }
    let rest = vstd::slice::slice_subrange(b, c1, b.len());
    proof {
        assert(rest@ =~= b@.skip(c1 as int));
    }
    let (t2, c2) = match from_bytes_chars(y, rest) {
        Ok(p) => p,
        Err(e) => {
            return Err(e);
        },
    };
    proof {
        lemma_decoded_consumed(*y, b@.skip(c1 as int));
    }
    let mut out: Vec<char> = Vec::new();
    out.push('(');
    let mut m1 = t1;
    out.append(&mut m1);
    out.push(',');
    out.push(' ');
    let mut m2 = t2;
    out.append(&mut m2);
    out.push(')');
    proof {
        let (ta, ca) = decoded_leaf(*x, b@)->0;
        let (tb, cb) = decoded_leaf(*y, b@.skip(c1 as int))->0;
        assert(out@ =~= seq!['('] + ta + seq![',', ' '] + tb + seq![')']);
    }
    Ok((out, c1 + c2))
}

/// Decode a three-slot tuple leaf: all slots in sequence, rendered in
/// parentheses.
#[verifier::loop_isolation(false)]
fn decode_tuple3_leaf(
    ty: &TypeDescriptor,
    x: &TypeDescriptor,
    y: &TypeDescriptor,
    z: &TypeDescriptor,
    b: &[u8],
) -> (r: Result<(Vec<char>, usize), Error>)
    requires
        *ty == TypeDescriptor::Tuple3(Box::new(*x), Box::new(*y), Box::new(*z)),
    ensures
        r is Ok <==> decoded_leaf(*ty, b@) is Some,
        r matches Ok(p) ==> decoded_leaf(*ty, b@) == Some((p.0@, p.1 as int)),
        r matches Err(e) ==> fault_matches(e, decode_fault(*ty, b@)),
    decreases ty.height(), 0nat, 0nat,
{
    let (t1, c1) = match from_bytes_chars(x, b) {
        Ok(p) => p,
        Err(e) => {
            return Err(e);
        },
    };
    proof {
        lemma_decoded_consumed(*x, b@);
    }
    let rest1 = vstd::slice::slice_subrange(b, c1, b.len());
    proof {
        assert(rest1@ =~= b@.skip(c1 as int));
    }
    let (t2, c2) = match from_bytes_chars(y, rest1) {
        Ok(p) => p,
        Err(e) => {
            return Err(e);
        },
    };
    proof {
        lemma_decoded_consumed(*y, b@.skip(c1 as int));
    }
    let rest2 = vstd::slice::slice_subrange(b, c1 + c2, b.len());
    proof {
        assert(rest2@ =~= b@.skip(c1 + c2));
        assert(b@.skip(c1 as int).skip(c2 as int) =~= b@.skip(c1 + c2));
    }
    let (t3, c3) = match from_bytes_chars(z, rest2) {
        Ok(p) => p,
        Err(e) => {
            return Err(e);
        },
    };
    proof {
        lemma_decoded_consumed(*z, b@.skip(c1 + c2));
    }
    let mut out: Vec<char> = Vec::new();
    out.push('(');
    let mut m1 = t1;
    out.append(&mut m1);
    out.push(',');
    out.push(' ');
    let mut m2 = t2;
    out.append(&mut m2);
    out.push(',');
    out.push(' ');
    let mut m3 = t3;
    out.append(&mut m3);
    out.push(')');
    proof {
        let (ta, ca) = decoded_leaf(*x, b@)->0;
        let (tb, cb) = decoded_leaf(*y, b@.skip(c1 as int))->0;
        let (tc, cc) = decoded_leaf(*z, b@.skip(c1 + c2))->0;
        assert(out@ =~= seq!['('] + ta + seq![',', ' '] + tb + seq![',', ' '] + tc + seq![')']);
    }
    Ok((out, c1 + c2 + c3))
}

/// Decode `n` consecutive elements of type `ty` from the head of `b`.
#[verifier::loop_isolation(false)]
fn decode_elems(ty: &TypeDescriptor, b: &[u8], n: u32) -> (r: Result<(Vec<Vec<char>>, usize), Error>)
    ensures
        r is Ok <==> decoded_elems(*ty, b@, n as int) is Some,
        r matches Ok(p) ==> decoded_elems(*ty, b@, n as int) == Some((p.0.deep_view(), p.1 as int)),
        r matches Err(e) ==> fault_matches(e, decode_elems_fault(*ty, b@, n as int)),
    decreases ty.height(), n, 1nat,
{
    let mut texts: Vec<Vec<char>> = Vec::new();
    let mut off: usize = 0;
    let mut i: u32 = 0;
    proof {
        assert(b@.skip(0) =~= b@);
        assert(texts.deep_view() =~~= Seq::<Seq<char>>::empty());
        if decoded_elems(*ty, b@, n as int) is Some {
            let (ts, cs) = decoded_elems(*ty, b@, n as int)->0;
            assert(texts.deep_view() + ts =~~= ts);
        }
    }
    while i < n
        invariant
            0 <= i <= n,
            0 <= off <= b@.len(),
            (decoded_elems(*ty, b@.skip(off as int), (n - i) as int) matches Some(p)
                ==> decoded_elems(*ty, b@, n as int) == Some(
                (texts.deep_view() + p.0, off + p.1),
            )),
            (decoded_elems(*ty, b@.skip(off as int), (n - i) as int) is None ==> decoded_elems(
                *ty,
                b@,
                n as int,
            ) is None),
            decode_elems_fault(*ty, b@, n as int) == decode_elems_fault(
                *ty,
                b@.skip(off as int),
                (n - i) as int,
            ),
        decreases n - i,
    {
        let cur = vstd::slice::slice_subrange(b, off, b.len());
        proof {
            assert(cur@ =~= b@.skip(off as int));
        }
        let (t, c) = match from_bytes_chars(ty, cur) {
            Ok(p) => p,
            Err(e) => {
                return Err(e);
            },
        };
        proof {
            lemma_decoded_consumed(*ty, b@.skip(off as int));
            assert(b@.skip(off as int).skip(c as int) =~= b@.skip(off + c));
        }
        let ghost old_deep = texts.deep_view();
        let ghost tv = t@;
        texts.push(t);
        proof {
            assert(texts.deep_view() =~~= old_deep.push(tv));
            if decoded_elems(*ty, b@.skip(off + c), (n - i - 1) as int) is Some {
                let (ts2, cs2) = decoded_elems(*ty, b@.skip(off + c), (n - i - 1) as int)->0;
                assert(old_deep + (seq![tv] + ts2) =~~= old_deep.push(tv) + ts2);
            }
        }
        off = off + c;
        i = i + 1;
    }
    proof {
        assert(decoded_elems(*ty, b@.skip(off as int), 0int) == Some(
            (Seq::<Seq<char>>::empty(), 0int),
        ));
        assert(texts.deep_view() + Seq::<Seq<char>>::empty() =~~= texts.deep_view());
    }
    Ok((texts, off))
}

/// Decode `n` consecutive key-value pairs from the head of `b`, each
/// rendered as `key:value`.
#[verifier::loop_isolation(false)]
fn decode_kv_pairs(kt: &TypeDescriptor, vt: &TypeDescriptor, b: &[u8], n: u32) -> (r: Result<
    (Vec<Vec<char>>, usize),
    Error,
>)
    ensures
        r is Ok <==> decoded_kv_pairs(*kt, *vt, b@, n as int) is Some,
        r matches Ok(p) ==> decoded_kv_pairs(*kt, *vt, b@, n as int) == Some(
            (p.0.deep_view(), p.1 as int),
        ),
        r matches Err(e) ==> fault_matches(e, decode_pairs_fault(*kt, *vt, b@, n as int)),
    decreases vstd::math::max(kt.height() as int, vt.height() as int), n, 1nat,
{
    let mut entries: Vec<Vec<char>> = Vec::new();
    let mut off: usize = 0;
    let mut i: u32 = 0;
    proof {
        assert(b@.skip(0) =~= b@);
        if decoded_kv_pairs(*kt, *vt, b@, n as int) is Some {
            let (es, cs) = decoded_kv_pairs(*kt, *vt, b@, n as int)->0;
            assert(entries.deep_view() + es =~~= es);
        }
    }
    while i < n
        invariant
            0 <= i <= n,
            0 <= off <= b@.len(),
            (decoded_kv_pairs(*kt, *vt, b@.skip(off as int), (n - i) as int) matches Some(p)
                ==> decoded_kv_pairs(*kt, *vt, b@, n as int) == Some(
                (entries.deep_view() + p.0, off + p.1),
            )),
            (decoded_kv_pairs(*kt, *vt, b@.skip(off as int), (n - i) as int) is None
                ==> decoded_kv_pairs(*kt, *vt, b@, n as int) is None),
            decode_pairs_fault(*kt, *vt, b@, n as int) == decode_pairs_fault(
                *kt,
                *vt,
                b@.skip(off as int),
                (n - i) as int,
            ),
        decreases n - i,
    {
        let cur = vstd::slice::slice_subrange(b, off, b.len());
        proof {
            assert(cur@ =~= b@.skip(off as int));
        }
        let (t1, c1) = match from_bytes_chars(kt, cur) {
            Ok(p) => p,
            Err(e) => {
                return Err(e);
            },
        };
        proof {
            lemma_decoded_consumed(*kt, b@.skip(off as int));
            assert(b@.skip(off as int).skip(c1 as int) =~= b@.skip(off + c1));
        }
        let cur2 = vstd::slice::slice_subrange(b, off + c1, b.len());
        proof {
            assert(cur2@ =~= b@.skip(off + c1));
        }
        let (t2, c2) = match from_bytes_chars(vt, cur2) {
            Ok(p) => p,
            Err(e) => {
                return Err(e);
            },
        };
        proof {
            lemma_decoded_consumed(*vt, b@.skip(off + c1));
            assert(b@.skip(off + c1).skip(c2 as int) =~= b@.skip(off + c1 + c2));
            assert(b@.skip(off as int).skip(c1 as int) =~= b@.skip(off + c1));
            assert(b@.skip(off as int).skip(c1 + c2) =~= b@.skip(off + c1 + c2));
        }
        let mut entry = t1;
        entry.push(':');
        let mut m2 = t2;
        entry.append(&mut m2);
        proof {
            let (ta, ca) = decoded_leaf(*kt, b@.skip(off as int))->0;
            let (tb, cb) = decoded_leaf(*vt, b@.skip(off + c1))->0;
            assert(entry@ =~= ta + seq![':'] + tb);
        }
        let ghost old_deep = entries.deep_view();
        let ghost ev = entry@;
        entries.push(entry);
        proof {
            assert(entries.deep_view() =~~= old_deep.push(ev));
            if decoded_kv_pairs(*kt, *vt, b@.skip(off + c1 + c2), (n - i - 1) as int) is Some {
                let (es2, cs2) = decoded_kv_pairs(
                    *kt,
                    *vt,
                    b@.skip(off + c1 + c2),
                    (n - i - 1) as int,
                )->0;
                assert(old_deep + (seq![ev] + es2) =~~= old_deep.push(ev) + es2);
            }
        }
        off = off + c1 + c2;
        i = i + 1;
    }
    proof {
        assert(decoded_kv_pairs(*kt, *vt, b@.skip(off as int), 0int) == Some(
            (Seq::<Seq<char>>::empty(), 0int),
        ));
        assert(entries.deep_view() + Seq::<Seq<char>>::empty() =~~= entries.deep_view());
    }
    Ok((entries, off))
}

/// `text` is an integer leaf's canonical rendering: either a canonical
/// unsigned decimal, or a minus sign before a canonical nonzero one.
pub open spec fn canonical_int(text: Seq<char>) -> bool {
    canonical_dec(text) || (text.len() >= 2 && text[0] == '-' && canonical_dec(text.drop_first())
        && dec_value(text.drop_first()) > 0)
}

/// `text` is a canonical value rendering for the primitive kind `ty`, in
/// the kinds whose codec this library states exactly: the booleans, the
/// fixed and big integers, strings and the unit.  The remaining primitive
/// kinds (keys, unforgeable references and public keys) parse and print
/// through the outside crate, whose two directions carry no shared
/// specification, so their round trips are exercised by tests instead.
pub open spec fn round_trip_text(ty: TypeDescriptor, text: Seq<char>) -> bool {
    match ty {
        TypeDescriptor::Bool => text == seq!['t', 'r', 'u', 'e'] || text == seq![
            'f',
            'a',
            'l',
            's',
            'e',
        ],
        TypeDescriptor::I32 => canonical_int(text) && i32::MIN <= int_text_value(text)->0
            <= i32::MAX,
        TypeDescriptor::I64 => canonical_int(text) && i64::MIN <= int_text_value(text)->0
            <= i64::MAX,
        TypeDescriptor::U8 => canonical_dec(text) && dec_value(text) <= u8::MAX,
        TypeDescriptor::U32 => canonical_dec(text) && dec_value(text) <= u32::MAX,
        TypeDescriptor::U64 => canonical_dec(text) && dec_value(text) <= u64::MAX,
        TypeDescriptor::U128 => canonical_dec(text) && dec_value(text)
            < vstd::arithmetic::power2::pow2(128),
        TypeDescriptor::U256 => canonical_dec(text) && dec_value(text)
            < vstd::arithmetic::power2::pow2(256),
        TypeDescriptor::U512 => canonical_dec(text) && dec_value(text)
            < vstd::arithmetic::power2::pow2(512),
        TypeDescriptor::String => vstd::utf8::encode_utf8(text).len() <= u32::MAX,
        TypeDescriptor::Unit => text.len() == 0,
        _ => false,
    }
}

/// The kind of error the leaf codec reports for bytes its decode
/// rejects: a registry reference where a leaf was expected is a format
/// fault, and everything else is a malformed byte string; the fault of
/// the first failing piece wins, walking the bytes as the decoder does.
pub open spec fn decode_fault(ty: TypeDescriptor, b: Seq<u8>) -> FaultKind
    decreases ty.height(), 0nat, 0nat,
{
    match ty {
        TypeDescriptor::Custom(_) => FaultKind::Format,
        TypeDescriptor::Option(t) => if b.len() >= 1 && b[0] == OPTION_SOME_TAG {
            decode_fault(*t, b.skip(1))
        } else {
            FaultKind::Malformed
        },
        TypeDescriptor::Result(ok_t, err_t) => if b.len() >= 1 && b[0] == RESULT_OK_TAG {
            decode_fault(*ok_t, b.skip(1))
        } else if b.len() >= 1 && b[0] == RESULT_ERR_TAG {
            decode_fault(*err_t, b.skip(1))
        } else {
            FaultKind::Malformed
        },
        TypeDescriptor::Tuple1(t) => decode_fault(*t, b),
        TypeDescriptor::Tuple2(x, y) => match decoded_leaf(*x, b) {
            Some((t1, c1)) => decode_fault(*y, b.skip(c1)),
            None => decode_fault(*x, b),
        },
        TypeDescriptor::Tuple3(x, y, z) => match decoded_leaf(*x, b) {
            Some((t1, c1)) => match decoded_leaf(*y, b.skip(c1)) {
                Some((t2, c2)) => decode_fault(*z, b.skip(c1 + c2)),
                None => decode_fault(*y, b.skip(c1)),
            },
            None => decode_fault(*x, b),
        },
        TypeDescriptor::List(t) => if b.len() >= 4 {
            decode_elems_fault(*t, b.skip(4), u32_of_le(b.take(4)))
        } else {
            FaultKind::Malformed
        },
        TypeDescriptor::MapOf(k, v) => if b.len() >= 4 {
            decode_pairs_fault(*k, *v, b.skip(4), u32_of_le(b.take(4)))
        } else {
            FaultKind::Malformed
        },
        _ => FaultKind::Malformed,
    }
}

/// The fault of the first element whose bytes the decoder rejects.
pub open spec fn decode_elems_fault(ty: TypeDescriptor, b: Seq<u8>, n: int) -> FaultKind
    decreases ty.height(), n, 1nat,
{
    if n <= 0 {
        FaultKind::Malformed
    } else {
        match decoded_leaf(ty, b) {
            Some((t, c)) => decode_elems_fault(ty, b.skip(c), n - 1),
            None => decode_fault(ty, b),
        }
    }
}

/// The fault of the first pair whose bytes the decoder rejects.
pub open spec fn decode_pairs_fault(kt: TypeDescriptor, vt: TypeDescriptor, b: Seq<u8>, n: int)
    -> FaultKind
    decreases vstd::math::max(kt.height() as int, vt.height() as int), n, 1nat,
{
    if n <= 0 {
        FaultKind::Malformed
    } else {
        match decoded_leaf(kt, b) {
            Some((t1, c1)) => match decoded_leaf(vt, b.skip(c1)) {
                Some((t2, c2)) => decode_pairs_fault(kt, vt, b.skip(c1 + c2), n - 1),
                None => decode_fault(vt, b.skip(c1)),
            },
            None => decode_fault(kt, b),
        }
    }
}

/// The round trip and byte-exactness of the leaf codec: encoding a
/// canonical text always succeeds, and decoding the result, with any
/// suffix appended, recovers exactly that text and consumes exactly the
/// bytes the encode produced.
pub proof fn lemma_leaf_round_trip(ty: TypeDescriptor, text: Seq<char>, suffix: Seq<u8>)
    requires
        round_trip_text(ty, text),
    ensures
        encoded_leaf(ty, text) is Some,
        decoded_leaf(ty, encoded_leaf(ty, text)->0 + suffix) == Some(
            (text, encoded_leaf(ty, text)->0.len() as int),
        ),
{
    match ty {
        TypeDescriptor::Bool => {
            if text == seq!['t', 'r', 'u', 'e'] {
                let b = seq![1u8] + suffix;
                assert(b[0] == 1 && b.len() >= 1);
            } else {
                let b = seq![0u8] + suffix;
                assert(b[0] == 0 && b.len() >= 1);
            }
        },
        TypeDescriptor::I32 => {
            lemma_round_i32(text, suffix);
        },
        TypeDescriptor::I64 => {
            lemma_round_i64(text, suffix);
        },
        TypeDescriptor::U8 => {
            let v = dec_value(text);
            crate::numeric::lemma_dec_value_nonneg(text);
            crate::numeric::lemma_digits_of_dec_value(text);
            let b = seq![v as u8] + suffix;
            assert(b[0] == v as u8 && b.len() >= 1);
            assert(dec_digits_of(b[0] as int) =~= text);
        },
        TypeDescriptor::U32 => {
            lemma_round_u32(text, suffix);
        },
        TypeDescriptor::U64 => {
            lemma_round_u64(text, suffix);
        },
        TypeDescriptor::U128 => {
            crate::numeric::lemma_dec_value_nonneg(text);
            lemma_big_round(text, suffix, 16);
        },
        TypeDescriptor::U256 => {
            crate::numeric::lemma_dec_value_nonneg(text);
            lemma_big_round(text, suffix, 32);
        },
        TypeDescriptor::U512 => {
            crate::numeric::lemma_dec_value_nonneg(text);
            lemma_big_round(text, suffix, 64);
        },
        TypeDescriptor::String => {
            lemma_round_string(text, suffix);
        },
        TypeDescriptor::Unit => {
            assert(text =~= Seq::<char>::empty());
        },
        _ => {},
    }
}

/// The signed 32-bit leaf's round trip.
proof fn lemma_round_i32(text: Seq<char>, suffix: Seq<u8>)
    requires
        round_trip_text(TypeDescriptor::I32, text),
    ensures
        encoded_leaf(TypeDescriptor::I32, text) is Some,
        decoded_leaf(TypeDescriptor::I32, encoded_leaf(TypeDescriptor::I32, text)->0 + suffix)
            == Some((text, encoded_leaf(TypeDescriptor::I32, text)->0.len() as int)),
{
    let v = int_text_value(text)->0;
    lemma_int_text_round(text);
    let enc = u32_le_bytes(wrap32(v));
    let b = enc + suffix;
    assert(b.take(4) =~= enc);
    crate::numeric::lemma_u32_le_roundtrip(wrap32(v));
    assert(unwrap32(wrap32(v)) == v);
    assert(dec_int_digits(v) =~= text);
}

/// The signed 64-bit leaf's round trip.
proof fn lemma_round_i64(text: Seq<char>, suffix: Seq<u8>)
    requires
        round_trip_text(TypeDescriptor::I64, text),
    ensures
        encoded_leaf(TypeDescriptor::I64, text) is Some,
        decoded_leaf(TypeDescriptor::I64, encoded_leaf(TypeDescriptor::I64, text)->0 + suffix)
            == Some((text, encoded_leaf(TypeDescriptor::I64, text)->0.len() as int)),
{
    let v = int_text_value(text)->0;
    lemma_int_text_round(text);
    let enc = u64_le_bytes(wrap64(v));
    let b = enc + suffix;
    assert(b.take(8) =~= enc);
    crate::numeric::lemma_u64_le_roundtrip(wrap64(v));
    assert(unwrap64(wrap64(v)) == v);
    assert(dec_int_digits(v) =~= text);
}

/// The unsigned 32-bit leaf's round trip.
proof fn lemma_round_u32(text: Seq<char>, suffix: Seq<u8>)
    requires
        round_trip_text(TypeDescriptor::U32, text),
    ensures
        encoded_leaf(TypeDescriptor::U32, text) is Some,
        decoded_leaf(TypeDescriptor::U32, encoded_leaf(TypeDescriptor::U32, text)->0 + suffix)
            == Some((text, encoded_leaf(TypeDescriptor::U32, text)->0.len() as int)),
{
    let v = dec_value(text);
    crate::numeric::lemma_dec_value_nonneg(text);
    crate::numeric::lemma_digits_of_dec_value(text);
    let enc = u32_le_bytes(v);
    let b = enc + suffix;
    assert(b.take(4) =~= enc);
    crate::numeric::lemma_u32_le_roundtrip(v);
}

/// The unsigned 64-bit leaf's round trip.
proof fn lemma_round_u64(text: Seq<char>, suffix: Seq<u8>)
    requires
        round_trip_text(TypeDescriptor::U64, text),
    ensures
        encoded_leaf(TypeDescriptor::U64, text) is Some,
        decoded_leaf(TypeDescriptor::U64, encoded_leaf(TypeDescriptor::U64, text)->0 + suffix)
            == Some((text, encoded_leaf(TypeDescriptor::U64, text)->0.len() as int)),
{
    let v = dec_value(text);
    crate::numeric::lemma_dec_value_nonneg(text);
    crate::numeric::lemma_digits_of_dec_value(text);
    let enc = u64_le_bytes(v);
    let b = enc + suffix;
    assert(b.take(8) =~= enc);
    crate::numeric::lemma_u64_le_roundtrip(v);
}

/// The string leaf's round trip, through UTF-8.
proof fn lemma_round_string(text: Seq<char>, suffix: Seq<u8>)
    requires
        round_trip_text(TypeDescriptor::String, text),
    ensures
        encoded_leaf(TypeDescriptor::String, text) is Some,
        decoded_leaf(
            TypeDescriptor::String,
            encoded_leaf(TypeDescriptor::String, text)->0 + suffix,
        ) == Some((text, encoded_leaf(TypeDescriptor::String, text)->0.len() as int)),
{
    let utf8 = vstd::utf8::encode_utf8(text);
    let enc = u32_le_bytes(utf8.len() as int) + utf8;
    let b = enc + suffix;
    assert(b.take(4) =~= u32_le_bytes(utf8.len() as int));
    crate::numeric::lemma_u32_le_roundtrip(utf8.len() as int);
    assert(b.subrange(4, 4 + utf8.len() as int) =~= utf8);
    vstd::utf8::encode_utf8_valid_utf8(text);
    vstd::utf8::encode_utf8_decode_utf8(text);
}

/// A canonical integer text denotes the value whose canonical rendering
/// it is.
proof fn lemma_int_text_round(text: Seq<char>)
    requires
        canonical_int(text),
    ensures
        int_text_value(text) is Some,
        dec_int_digits(int_text_value(text)->0) =~= text,
{
    if canonical_dec(text) {
        assert(text[0] != '-' && text[0] != '+') by {
            assert(crate::numeric::is_digit(text[0]));
        }
        crate::numeric::lemma_dec_value_nonneg(text);
        crate::numeric::lemma_digits_of_dec_value(text);
    } else {
        let rest = text.drop_first();
        crate::numeric::lemma_dec_value_nonneg(rest);
        crate::numeric::lemma_digits_of_dec_value(rest);
        let v = int_text_value(text)->0;
        assert(v == -dec_value(rest));
        assert(dec_int_digits(v) =~= seq!['-'] + dec_digits_of(-v));
        assert(seq!['-'] + rest =~= text);
    }
}

/// The big-integer wire form is inverted exactly by its decode.
proof fn lemma_big_round(text: Seq<char>, suffix: Seq<u8>, width: int)
    requires
        canonical_dec(text),
        0 <= dec_value(text),
        dec_value(text) < vstd::arithmetic::power2::pow2((8 * width) as nat),
        width == 16 || width == 32 || width == 64,
    ensures
        big_bytes(dec_value(text)).len() >= 1,
        (big_bytes(dec_value(text)) + suffix)[0] == min_le_bytes(dec_value(text)).len() as u8,
        min_le_bytes(dec_value(text)).len() <= width,
        (big_bytes(dec_value(text)) + suffix).len() >= 1 + min_le_bytes(dec_value(text)).len(),
        (big_bytes(dec_value(text)) + suffix).subrange(
            1,
            1 + min_le_bytes(dec_value(text)).len() as int,
        ) =~= min_le_bytes(dec_value(text)),
        dec_digits_of(le_value(min_le_bytes(dec_value(text)))) =~= text,
{
    let v = dec_value(text);
    crate::numeric::lemma_min_le_bytes_len(v, width as nat);
    crate::numeric::lemma_le_value_of_min(v);
    crate::numeric::lemma_digits_of_dec_value(text);
    let enc = big_bytes(v);
    let b = enc + suffix;
    assert(b[0] == min_le_bytes(v).len() as u8);
    assert(b.subrange(1, 1 + min_le_bytes(v).len() as int) =~= min_le_bytes(v));
}

/// The list layout round trip: encoding `n` element texts produces a
/// 4-byte count of `n` followed by exactly the `n` element encodings, and
/// decoding that run, with any suffix appended, recovers the same `n`
/// texts in order and consumes exactly the encoded bytes.
pub proof fn lemma_list_round_trip(ty: TypeDescriptor, texts: Seq<Seq<char>>, suffix: Seq<u8>)
    requires
        forall|i: int| 0 <= i < texts.len() ==> round_trip_text(ty, #[trigger] texts[i]),
        texts.len() <= u32::MAX,
    ensures
        encoded_seq(ty, texts) is Some,
        encoded_seq(ty, texts)->0.take(4) =~= u32_le_bytes(texts.len() as int),
        decoded_elems(ty, encoded_seq(ty, texts)->0.skip(4) + suffix, texts.len() as int) == Some(
            (texts, (encoded_seq(ty, texts)->0.len() - 4) as int),
        ),
{
    lemma_each_round_trip(ty, texts, suffix);
    let body = encoded_each(ty, texts)->0;
    assert((u32_le_bytes(texts.len() as int) + body).take(4) =~= u32_le_bytes(
        texts.len() as int,
    ));
    assert((u32_le_bytes(texts.len() as int) + body).skip(4) =~= body);
}

/// Element texts concatenate their encodings, and the concatenation
/// decodes back to the same texts.
proof fn lemma_each_round_trip(ty: TypeDescriptor, texts: Seq<Seq<char>>, suffix: Seq<u8>)
    requires
        forall|i: int| 0 <= i < texts.len() ==> round_trip_text(ty, #[trigger] texts[i]),
    ensures
        encoded_each(ty, texts) is Some,
        decoded_elems(ty, encoded_each(ty, texts)->0 + suffix, texts.len() as int) == Some(
            (texts, encoded_each(ty, texts)->0.len() as int),
        ),
    decreases texts.len(),
{
    if texts.len() == 0 {
        assert(encoded_each(ty, texts) == Some(Seq::<u8>::empty()));
        assert(decoded_elems(ty, Seq::<u8>::empty() + suffix, 0) == Some(
            (Seq::<Seq<char>>::empty(), 0int),
        ));
        assert(texts =~~= Seq::<Seq<char>>::empty());
    } else {
        let rest = texts.drop_first();
        lemma_each_round_trip(ty, rest, suffix);
        let body_rest = encoded_each(ty, rest)->0;
        lemma_leaf_round_trip(ty, texts[0], body_rest + suffix);
        let head = encoded_leaf(ty, texts[0])->0;
        let body = encoded_each(ty, texts)->0;
        assert(body =~= head + body_rest);
        assert(body + suffix =~= head + (body_rest + suffix));
        assert(decoded_leaf(ty, body + suffix) == Some((texts[0], head.len() as int)));
        assert((body + suffix).skip(head.len() as int) =~= body_rest + suffix);
        assert(seq![texts[0]] + rest =~~= texts);
    }
}

/// The kind of error the leaf codec reports when it rejects a text.
pub ghost enum FaultKind {
    /// A boolean, integer or key text that does not parse.
    Parse,
    /// A big unsigned integer that does not parse or overflows.
    BigUint,
    /// A malformed option, result, tuple, map or byte-array text, or a
    /// registry reference where a leaf was expected.
    Format,
    /// Bad digits after a `0x` prefix.
    HexDecode,
    /// An unforgeable-reference text that does not parse.
    BadURef,
    /// A public-key text that does not parse.
    BadPublicKey,
    /// A value with more elements or bytes than its count prefix can say.
    Oversize,
    /// A byte string too short or otherwise rejected by its declared
    /// type's decode.
    Malformed,
}

/// Whether an error value carries the given kind.
pub open spec fn fault_matches(e: Error, k: FaultKind) -> bool {
    match k {
        FaultKind::Parse => e matches Error::ParseError(_),
        FaultKind::BigUint => e matches Error::BigUintError(_),
        FaultKind::Format => e matches Error::Formatting(_),
        FaultKind::HexDecode => e matches Error::HexDecodeError,
        FaultKind::BadURef => e matches Error::InvalidURef,
        FaultKind::BadPublicKey => e matches Error::InvalidPublicKey,
        FaultKind::Oversize => e matches Error::SerializationError,
        FaultKind::Malformed => e matches Error::DeserializationError,
    }
}

/// The kind of error the leaf codec reports for `ty` and `text`, read
/// wherever [`encoded_leaf`] rejects the text: the fault of the first
/// failing piece, walking the text as the encoder does.
pub open spec fn encode_fault(ty: TypeDescriptor, text: Seq<char>) -> FaultKind
    decreases ty.height(), 0nat, 0nat,
{
    match ty {
        TypeDescriptor::Bool => FaultKind::Parse,
        TypeDescriptor::I32 => FaultKind::Parse,
        TypeDescriptor::I64 => FaultKind::Parse,
        TypeDescriptor::U8 => FaultKind::Parse,
        TypeDescriptor::U32 => FaultKind::Parse,
        TypeDescriptor::U64 => FaultKind::Parse,
        TypeDescriptor::U128 => FaultKind::BigUint,
        TypeDescriptor::U256 => FaultKind::BigUint,
        TypeDescriptor::U512 => FaultKind::BigUint,
        TypeDescriptor::String => FaultKind::Oversize,
        TypeDescriptor::Key => FaultKind::Parse,
        TypeDescriptor::URef => FaultKind::BadURef,
        TypeDescriptor::PublicKey => FaultKind::BadPublicKey,
        TypeDescriptor::Unit => FaultKind::Parse,
        TypeDescriptor::Option(t) => if text == none_text() {
            FaultKind::Parse
        } else if spec_has_prefix(text, some_prefix()) {
            encode_fault(*t, text.skip(5))
        } else {
            FaultKind::Format
        },
        TypeDescriptor::Result(ok_t, err_t) => if spec_has_prefix(text, err_prefix()) {
            encode_fault(*err_t, text.skip(4))
        } else if spec_has_prefix(text, ok_prefix()) {
            encode_fault(*ok_t, text.skip(3))
        } else {
            FaultKind::Format
        },
        TypeDescriptor::Tuple1(t) => encode_fault(*t, text),
        TypeDescriptor::Tuple2(a, b) => {
            let parts = spec_split(text, ',');
            if parts.len() == 2 {
                if encoded_leaf(*a, parts[0]) is None {
                    encode_fault(*a, parts[0])
                } else {
                    encode_fault(*b, parts[1])
                }
            } else {
                FaultKind::Format
            }
        },
        TypeDescriptor::Tuple3(a, b, c) => {
            let parts = spec_split(text, ',');
            if parts.len() == 3 {
                if encoded_leaf(*a, parts[0]) is None {
                    encode_fault(*a, parts[0])
                } else if encoded_leaf(*b, parts[1]) is None {
                    encode_fault(*b, parts[1])
                } else {
                    encode_fault(*c, parts[2])
                }
            } else {
                FaultKind::Format
            }
        },
        TypeDescriptor::List(t) => {
            let parts = spec_split(text, ',');
            if parts.len() <= u32::MAX {
                each_fault(*t, parts)
            } else {
                FaultKind::Oversize
            }
        },
        TypeDescriptor::MapOf(k, v) => {
            let parts = spec_split(text, ',');
            if parts.len() <= u32::MAX {
                pairs_fault(*k, *v, parts)
            } else {
                FaultKind::Oversize
            }
        },
        TypeDescriptor::ByteArray(n) => if spec_has_prefix(text, seq!['0', 'x']) {
            let rest = text.skip(2);
            if all_hex_digits(rest) && rest.len() % 2 == 0 {
                FaultKind::Format
            } else {
                FaultKind::HexDecode
            }
        } else {
            let parts = spec_split(text, ',');
            if parts.len() == n {
                FaultKind::Parse
            } else {
                FaultKind::Format
            }
        },
        TypeDescriptor::Custom(_) => FaultKind::Format,
    }
}

/// The fault of the first element whose text the codec rejects.
pub open spec fn each_fault(ty: TypeDescriptor, texts: Seq<Seq<char>>) -> FaultKind
    decreases ty.height(), texts.len(), 1nat,
{
    if texts.len() == 0 {
        FaultKind::Parse
    } else if encoded_leaf(ty, texts[0]) is None {
        encode_fault(ty, texts[0])
    } else {
        each_fault(ty, texts.drop_first())
    }
}

/// The fault of the first pair text the codec rejects.
pub open spec fn pairs_fault(kt: TypeDescriptor, vt: TypeDescriptor, parts: Seq<Seq<char>>)
    -> FaultKind
    decreases vstd::math::max(kt.height() as int, vt.height() as int), parts.len(), 1nat,
{
    if parts.len() == 0 {
        FaultKind::Parse
    } else {
        let kv = spec_split(parts[0], ':');
        if kv.len() != 2 {
            FaultKind::Format
        } else if encoded_leaf(kt, kv[0]) is None {
            encode_fault(kt, kv[0])
        } else if encoded_leaf(vt, kv[1]) is None {
            encode_fault(vt, kv[1])
        } else {
            pairs_fault(kt, vt, parts.drop_first())
        }
    }
}

/// Whether `t` is the text `true`.
fn is_true_text(t: &[char]) -> (r: bool)
    ensures
        r == (t@ == seq!['t', 'r', 'u', 'e']),
{
    if t.len() == 4 && t[0] == 't' && t[1] == 'r' && t[2] == 'u' && t[3] == 'e' {
        proof {
            assert(t@ =~= seq!['t', 'r', 'u', 'e']);
        }
        true
    } else {
        false
    }
}

/// Whether `t` is the text `false`.
fn is_false_text(t: &[char]) -> (r: bool)
    ensures
        r == (t@ == seq!['f', 'a', 'l', 's', 'e']),
{
    if t.len() == 5 && t[0] == 'f' && t[1] == 'a' && t[2] == 'l' && t[3] == 's' && t[4] == 'e' {
        proof {
            assert(t@ =~= seq!['f', 'a', 'l', 's', 'e']);
        }
        true
    } else {
        false
    }
}

/// Whether `t` is the text `none`.
fn is_none_text(t: &[char]) -> (r: bool)
    ensures
        r == (t@ == none_text()),
{
    if t.len() == 4 && t[0] == 'n' && t[1] == 'o' && t[2] == 'n' && t[3] == 'e' {
        proof {
            assert(t@ =~= none_text());
        }
        true
    } else {
        false
    }
}

/// Whether `t` starts with `some:`.
fn has_some_prefix(t: &[char]) -> (r: bool)
    ensures
        r == spec_has_prefix(t@, some_prefix()),
{
    if t.len() >= 5 && t[0] == 's' && t[1] == 'o' && t[2] == 'm' && t[3] == 'e' && t[4] == ':' {
        proof {
            assert(t@.take(5) =~= some_prefix());
        }
        true
    } else {
        proof {
            if spec_has_prefix(t@, some_prefix()) {
                assert(t@.take(5)[0] == 's' && t@.take(5)[1] == 'o' && t@.take(5)[2] == 'm'
                    && t@.take(5)[3] == 'e' && t@.take(5)[4] == ':');
            }
        }
        false
    }
}

/// Whether `t` starts with `ok:`.
fn has_ok_prefix(t: &[char]) -> (r: bool)
    ensures
        r == spec_has_prefix(t@, ok_prefix()),
{
    if t.len() >= 3 && t[0] == 'o' && t[1] == 'k' && t[2] == ':' {
        proof {
            assert(t@.take(3) =~= ok_prefix());
        }
        true
    } else {
        proof {
            if spec_has_prefix(t@, ok_prefix()) {
                assert(t@.take(3)[0] == 'o' && t@.take(3)[1] == 'k' && t@.take(3)[2] == ':');
            }
        }
        false
    }
}

/// Whether `t` starts with `err:`.
fn has_err_prefix(t: &[char]) -> (r: bool)
    ensures
        r == spec_has_prefix(t@, err_prefix()),
{
    if t.len() >= 4 && t[0] == 'e' && t[1] == 'r' && t[2] == 'r' && t[3] == ':' {
        proof {
            assert(t@.take(4) =~= err_prefix());
        }
        true
    } else {
        proof {
            if spec_has_prefix(t@, err_prefix()) {
                assert(t@.take(4)[0] == 'e' && t@.take(4)[1] == 'r' && t@.take(4)[2] == 'r'
                    && t@.take(4)[3] == ':');
            }
        }
        false
    }
}

/// Whether `t` has one of the two accepted key forms.
fn has_key_text_prefix(t: &[char]) -> (r: bool)
    ensures
        r == accepted_key_text(t@),
{
    if t.len() >= 5 && t[0] == 'h' && t[1] == 'a' && t[2] == 's' && t[3] == 'h' && t[4] == '-' {
        proof {
            assert(t@.take(5) =~= seq!['h', 'a', 's', 'h', '-']);
        }
        true
    } else if t.len() >= 13 && t[0] == 'a' && t[1] == 'c' && t[2] == 'c' && t[3] == 'o' && t[4]
        == 'u' && t[5] == 'n' && t[6] == 't' && t[7] == '-' && t[8] == 'h' && t[9] == 'a' && t[10]
        == 's' && t[11] == 'h' && t[12] == '-' {
        proof {
            assert(t@.take(13) =~= seq![
                'a',
                'c',
                'c',
                'o',
                'u',
                'n',
                't',
                '-',
                'h',
                'a',
                's',
                'h',
                '-',
            ]);
        }
        true
    } else {
        proof {
            if t@.len() >= 5 && t@.take(5) == seq!['h', 'a', 's', 'h', '-'] {
                assert(t@.take(5)[0] == 'h' && t@.take(5)[1] == 'a' && t@.take(5)[2] == 's'
                    && t@.take(5)[3] == 'h' && t@.take(5)[4] == '-');
            }
            if t@.len() >= 13 && t@.take(13) == seq![
                'a',
                'c',
                'c',
                'o',
                'u',
                'n',
                't',
                '-',
                'h',
                'a',
                's',
                'h',
                '-',
            ] {
                assert(t@.take(13)[0] == 'a' && t@.take(13)[1] == 'c' && t@.take(13)[2] == 'c'
                    && t@.take(13)[3] == 'o' && t@.take(13)[4] == 'u' && t@.take(13)[5] == 'n'
                    && t@.take(13)[6] == 't' && t@.take(13)[7] == '-' && t@.take(13)[8] == 'h'
                    && t@.take(13)[9] == 'a' && t@.take(13)[10] == 's' && t@.take(13)[11] == 'h'
                    && t@.take(13)[12] == '-');
            }
        }
        false
    }
}

/// Whether `t` starts with `0x`.
fn has_hex_prefix(t: &[char]) -> (r: bool)
    ensures
        r == spec_has_prefix(t@, seq!['0', 'x']),
{
    if t.len() >= 2 && t[0] == '0' && t[1] == 'x' {
        proof {
            assert(t@.take(2) =~= seq!['0', 'x']);
        }
        true
    } else {
        proof {
            if spec_has_prefix(t@, seq!['0', 'x']) {
                assert(t@.take(2)[0] == '0' && t@.take(2)[1] == 'x');
            }
        }
        false
    }
}

/// Encode one leaf value: parse `input` as `ty` directs and produce its
/// wire bytes.  Succeeds exactly where [`encoded_leaf`] accepts the text,
/// and then returns exactly those bytes.
pub fn into_bytes(ty: &TypeDescriptor, input: &str) -> (r: Result<Vec<u8>, Error>)
    ensures
        r is Ok <==> encoded_leaf(*ty, input@) is Some,
        r matches Ok(b) ==> Some(b@) == encoded_leaf(*ty, input@),
        r matches Err(e) ==> fault_matches(e, encode_fault(*ty, input@)),
        r matches Err(e) ==> !(e matches Error::MissingRequiredValue(_)),
        *ty matches TypeDescriptor::Key ==> (r matches Ok(b) ==> (forall|suffix: Seq<u8>|
            ((#[trigger] decoded_leaf(TypeDescriptor::Key, b@ + suffix)) matches Some((t, c))
                && c == b@.len()))),
        *ty matches TypeDescriptor::URef ==> (r matches Ok(b) ==> (forall|suffix: Seq<u8>|
            ((#[trigger] decoded_leaf(TypeDescriptor::URef, b@ + suffix)) matches Some((t, c))
                && c == b@.len()))),
{
    let chars = chars_of(input);
    into_bytes_chars(ty, chars.as_slice())
}

/// Encode one leaf value given as characters.
#[verifier::loop_isolation(false)]
pub fn into_bytes_chars(ty: &TypeDescriptor, text: &[char]) -> (r: Result<Vec<u8>, Error>)
    ensures
        r is Ok <==> encoded_leaf(*ty, text@) is Some,
        r matches Ok(b) ==> Some(b@) == encoded_leaf(*ty, text@),
        r matches Err(e) ==> fault_matches(e, encode_fault(*ty, text@)),
        r matches Err(e) ==> !(e matches Error::MissingRequiredValue(_)),
        *ty matches TypeDescriptor::Key ==> (r matches Ok(b) ==> (forall|suffix: Seq<u8>|
            ((#[trigger] decoded_leaf(TypeDescriptor::Key, b@ + suffix)) matches Some((t, c))
                && c == b@.len()))),
        *ty matches TypeDescriptor::URef ==> (r matches Ok(b) ==> (forall|suffix: Seq<u8>|
            ((#[trigger] decoded_leaf(TypeDescriptor::URef, b@ + suffix)) matches Some((t, c))
                && c == b@.len()))),
    decreases ty.height(), 0nat, 0nat,
{
    match ty {
        TypeDescriptor::Bool => {
            if is_true_text(text) {
                Ok(vec![1u8])
            } else if is_false_text(text) {
                Ok(vec![0u8])
            } else {
                Err(Error::ParseError(string_of(text)))
            }
        },
        TypeDescriptor::I32 => {
            match parse_int_value(text) {
                Some((neg, mag)) => {
                    if neg && mag <= 0x80000000u64 {
                        let repr: u32 = if mag == 0 {
                            0
                        } else {
                            ((0x100000000u64 - mag) as u32)
                        };
                        let mut out: Vec<u8> = Vec::new();
                        push_u32_le(&mut out, repr);
                        Ok(out)
                    } else if !neg && mag <= 0x7fffffffu64 {
                        let mut out: Vec<u8> = Vec::new();
                        push_u32_le(&mut out, mag as u32);
                        Ok(out)
                    } else {
                        Err(Error::ParseError(string_of(text)))
                    }
                },
                None => Err(Error::ParseError(string_of(text))),
            }
        },
        TypeDescriptor::I64 => {
            match parse_int_value(text) {
                Some((neg, mag)) => {
                    if neg && mag <= 0x8000000000000000u64 {
                        let repr: u64 = if mag == 0 {
                            0
                        } else {
                            (u64::MAX - mag) + 1
                        };
                        let mut out: Vec<u8> = Vec::new();
                        push_u64_le(&mut out, repr);
                        Ok(out)
                    } else if !neg && mag <= 0x7fffffffffffffffu64 {
                        let mut out: Vec<u8> = Vec::new();
                        push_u64_le(&mut out, mag);
                        Ok(out)
                    } else {
                        Err(Error::ParseError(string_of(text)))
                    }
                },
                None => Err(Error::ParseError(string_of(text))),
            }
        },
        TypeDescriptor::U8 => {
            match parse_value(text) {
                Some(v) => {
                    if v <= 0xffu64 {
                        Ok(vec![v as u8])
                    } else {
                        Err(Error::ParseError(string_of(text)))
                    }
                },
                None => Err(Error::ParseError(string_of(text))),
            }
        },
        TypeDescriptor::U32 => {
            match parse_value(text) {
                Some(v) => {
                    if v <= 0xffffffffu64 {
                        let mut out: Vec<u8> = Vec::new();
                        push_u32_le(&mut out, v as u32);
                        Ok(out)
                    } else {
                        Err(Error::ParseError(string_of(text)))
                    }
                },
                None => Err(Error::ParseError(string_of(text))),
            }
        },
        TypeDescriptor::U64 => {
            match parse_value(text) {
                Some(v) => {
                    let mut out: Vec<u8> = Vec::new();
                    push_u64_le(&mut out, v);
                    Ok(out)
                },
                None => Err(Error::ParseError(string_of(text))),
            }
        },
        TypeDescriptor::U128 => {
            let s = string_of(text);
            match u128_dec_to_bytes(s.as_str()) {
                Some(b) => Ok(b),
                None => Err(Error::BigUintError(s)),
            }
        },
        TypeDescriptor::U256 => {
            let s = string_of(text);
            match u256_dec_to_bytes(s.as_str()) {
                Some(b) => Ok(b),
                None => Err(Error::BigUintError(s)),
            }
        },
        TypeDescriptor::U512 => {
            let s = string_of(text);
            match u512_dec_to_bytes(s.as_str()) {
                Some(b) => Ok(b),
                None => Err(Error::BigUintError(s)),
            }
        },
        TypeDescriptor::String => {
            let s = string_of(text);
            let bytes = s.as_str().as_bytes_vec();
            if bytes.len() > 0xffffffffusize {
                Err(Error::SerializationError)
            } else {
                let mut out: Vec<u8> = Vec::new();
                push_u32_le(&mut out, bytes.len() as u32);
                let mut payload = bytes;
                out.append(&mut payload);
                Ok(out)
            }
        },
        TypeDescriptor::Key => {
            if !has_key_text_prefix(text) {
                return Err(Error::ParseError(string_of(text)));
            }
            let s = string_of(text);
            match key_encode(s.as_str()) {
                Some(b) => Ok(b),
                None => Err(Error::ParseError(s)),
            }
        },
        TypeDescriptor::URef => {
            let s = string_of(text);
            match uref_encode(s.as_str()) {
                Some(b) => Ok(b),
                None => Err(Error::InvalidURef),
            }
        },
        TypeDescriptor::PublicKey => {
            let s = string_of(text);
            match pubkey_encode(s.as_str()) {
                Some(b) => Ok(b),
                None => Err(Error::InvalidPublicKey),
            }
        },
        TypeDescriptor::Unit => Ok(Vec::new()),
        TypeDescriptor::Option(t) => {
            if is_none_text(text) {
                Ok(vec![OPTION_NONE_TAG])
            } else if has_some_prefix(text) {
                let rest = vstd::slice::slice_subrange(text, 5, text.len());
                proof {
                    assert(rest@ =~= text@.skip(5));
                }
                match into_bytes_chars(&**t, rest) {
                    Ok(b) => {
                        let mut out: Vec<u8> = vec![OPTION_SOME_TAG];
                        let mut payload = b;
                        out.append(&mut payload);
                        Ok(out)
                    },
                    Err(e) => Err(e),
                }
            } else {
                Err(Error::Formatting(string_of(text)))
            }
        },
        TypeDescriptor::Result(ok_t, err_t) => {
            if has_err_prefix(text) {
                let rest = vstd::slice::slice_subrange(text, 4, text.len());
                proof {
                    assert(rest@ =~= text@.skip(4));
                }
                match into_bytes_chars(&**err_t, rest) {
                    Ok(b) => {
                        let mut out: Vec<u8> = vec![RESULT_ERR_TAG];
                        let mut payload = b;
                        out.append(&mut payload);
                        Ok(out)
                    },
                    Err(e) => Err(e),
                }
            } else if has_ok_prefix(text) {
                let rest = vstd::slice::slice_subrange(text, 3, text.len());
                proof {
                    assert(rest@ =~= text@.skip(3));
                }
                match into_bytes_chars(&**ok_t, rest) {
                    Ok(b) => {
                        let mut out: Vec<u8> = vec![RESULT_OK_TAG];
                        let mut payload = b;
                        out.append(&mut payload);
                        Ok(out)
                    },
                    Err(e) => Err(e),
                }
            } else {
                Err(Error::Formatting(string_of(text)))
            }
        },
        TypeDescriptor::Tuple1(t) => into_bytes_chars(&**t, text),
        TypeDescriptor::Tuple2(a, b) => {
            let parts = split_chars(text, ',');
            proof {
                assert(parts.deep_view()[0] =~= parts@[0]@);
                if parts@.len() == 2 {
                    assert(parts.deep_view()[1] =~= parts@[1]@);
                }
            }
            if parts.len() != 2 {
                return Err(Error::Formatting(string_of(text)));
            }
            let ba = into_bytes_chars(&**a, parts[0].as_slice())?;
            let bb = into_bytes_chars(&**b, parts[1].as_slice())?;
            let mut out = ba;
            let mut tail = bb;
            out.append(&mut tail);
            Ok(out)
        },
        TypeDescriptor::Tuple3(a, b, c) => {
            let parts = split_chars(text, ',');
            proof {
                assert(parts.deep_view()[0] =~= parts@[0]@);
                if parts@.len() == 3 {
                    assert(parts.deep_view()[1] =~= parts@[1]@);
                    assert(parts.deep_view()[2] =~= parts@[2]@);
                }
            }
            if parts.len() != 3 {
                return Err(Error::Formatting(string_of(text)));
            }
            let ba = into_bytes_chars(&**a, parts[0].as_slice())?;
            let bb = into_bytes_chars(&**b, parts[1].as_slice())?;
            let bc = into_bytes_chars(&**c, parts[2].as_slice())?;
            let mut out = ba;
            let mut mid = bb;
            let mut tail = bc;
            out.append(&mut mid);
            out.append(&mut tail);
            Ok(out)
        },
        TypeDescriptor::List(t) => {
            let parts = split_chars(text, ',');
            vec_into_bytes_parts(&**t, &parts)
        },
        TypeDescriptor::MapOf(k, v) => {
            let parts = split_chars(text, ',');
            map_pairs_into_bytes(&**k, &**v, &parts)
        },
        TypeDescriptor::ByteArray(n) => {
            if has_hex_prefix(text) {
                let rest = vstd::slice::slice_subrange(text, 2, text.len());
                proof {
                    assert(rest@ =~= text@.skip(2));
                }
                let s = string_of(rest);
                match hex_decode(s.as_str()) {
                    Some(b) => {
                        if b.len() == rest.len() / 2 && rest.len() % 2 == 0 && b.len() == *n
                            as usize {
                            proof {
                                assert(rest@.len() == 2 * (*n as int));
                            }
                            Ok(b)
                        } else {
                            proof {
                                assert(b@.len() == rest@.len() / 2);
                            }
                            Err(Error::Formatting(string_of(text)))
                        }
                    },
                    None => Err(Error::HexDecodeError),
                }
            } else {
                let parts = split_chars(text, ',');
                let ghost all = parts.deep_view();
                if parts.len() != *n as usize {
                    return Err(Error::Formatting(string_of(text)));
                }
                let mut out: Vec<u8> = Vec::new();
                let mut i: usize = 0;
                while i < parts.len()
                    invariant
                        0 <= i <= parts@.len(),
                        all =~~= parts.deep_view(),
                        all.len() == parts@.len(),
                        forall|j: int| 0 <= j < i ==> ((#[trigger] uint_text_value(all[j]))
                            matches Some(v) && 0 <= v <= u8::MAX),
                        out@ =~= dec_bytes_of(all.take(i as int)),
                    decreases parts@.len() - i,
                {
                    proof {
                        assert(parts.deep_view()[i as int] =~= parts@[i as int]@);
                    }
                    match parse_value(parts[i].as_slice()) {
                        Some(v) => {
                            if v <= 0xffu64 {
                                out.push(v as u8);
                                proof {
                                    assert(out@ =~= dec_bytes_of(all.take(i + 1)));
                                }
                            } else {
                                proof {
                                    assert(!dec_bytes_ok(all));
                                }
                                return Err(Error::ParseError(string_of(parts[i].as_slice())));
                            }
                        },
                        None => {
                            proof {
                                assert(!dec_bytes_ok(all));
                            }
                            return Err(Error::ParseError(string_of(parts[i].as_slice())));
                        },
                    }
                    i = i + 1;
                }
                proof {
                    assert(all.take(all.len() as int) =~~= all);
                    assert(dec_bytes_ok(all));
                }
                Ok(out)
            }
        },
        TypeDescriptor::Custom(_) => Err(Error::Formatting(string_of(text))),
    }
}

/// Encode a run of list elements: a 4-byte count, then each element.
pub fn vec_into_bytes_parts(ty: &TypeDescriptor, parts: &Vec<Vec<char>>) -> (r: Result<Vec<u8>, Error>)
    ensures
        r is Ok <==> encoded_seq(*ty, parts.deep_view()) is Some,
        r matches Ok(b) ==> Some(b@) == encoded_seq(*ty, parts.deep_view()),
        r matches Err(e) ==> fault_matches(
            e,
            if parts.deep_view().len() <= u32::MAX {
                each_fault(*ty, parts.deep_view())
            } else {
                FaultKind::Oversize
            },
        ),
        r matches Err(e) ==> !(e matches Error::MissingRequiredValue(_)),
    decreases ty.height(), parts@.len(), 2nat,
{
    let ghost all = parts.deep_view();
    if parts.len() > 0xffffffffusize {
        return Err(Error::SerializationError);
    }
    let mut out: Vec<u8> = Vec::new();
    let mut i: usize = 0;
    proof {
        assert(all.skip(0) =~~= all);
    }
    while i < parts.len()
        invariant
            0 <= i <= parts@.len(),
            all =~~= parts.deep_view(),
            all.len() == parts@.len(),
            all.len() <= u32::MAX,
            encoded_each(*ty, all.take(i as int)) == Some(out@),
            each_fault(*ty, all) == each_fault(*ty, all.skip(i as int)),
        decreases parts@.len() - i,
    {
        proof {
            assert(parts.deep_view()[i as int] =~= parts@[i as int]@);
            lemma_encoded_each_split(*ty, all, i as int);
            assert(all.skip(i as int)[0] =~= all[i as int]);
            assert(all.skip(i as int).drop_first() =~= all.skip(i + 1));
        }
        let b = match into_bytes_chars(ty, parts[i].as_slice()) {
            Ok(b) => b,
            Err(e) => {
                proof {
                    assert(encoded_leaf(*ty, all[i as int]) is None);
                    assert(each_fault(*ty, all.skip(i as int)) == encode_fault(
                        *ty,
                        all[i as int],
                    ));
                }
                return Err(e);
            },
        };
        proof {
            assert(encoded_leaf(*ty, all[i as int]) is Some);
            assert(each_fault(*ty, all.skip(i as int)) == each_fault(*ty, all.skip(i + 1)));
        }
        let ghost old_out = out@;
        let mut tail = b;
        out.append(&mut tail);
        proof {
            assert(all.take(i + 1).take(i as int) =~~= all.take(i as int));
            assert(all.take(i + 1).skip(i as int) =~~= seq![all[i as int]]);
            lemma_encoded_each_split(*ty, all.take(i + 1), i as int);
            let eb = encoded_leaf(*ty, all[i as int])->0;
            assert(encoded_leaf(*ty, all[i as int]) == Some(eb));
            assert(seq![all[i as int]][0] =~= all[i as int]);
            assert(seq![all[i as int]].drop_first() =~~= Seq::<Seq<char>>::empty());
            assert(encoded_each(*ty, Seq::<Seq<char>>::empty()) == Some(Seq::<u8>::empty()));
            assert(encoded_each(*ty, seq![all[i as int]]) == Some(eb + Seq::<u8>::empty()));
            assert(eb + Seq::<u8>::empty() =~= eb);
            assert(out@ =~= old_out + eb);
        }
        i = i + 1;
    }
    proof {
        assert(all.take(all.len() as int) =~~= all);
    }
    let mut prefixed: Vec<u8> = Vec::new();
    push_u32_le(&mut prefixed, parts.len() as u32);
    prefixed.append(&mut out);
    Ok(prefixed)
}

/// Encode a run of `key:value` texts as one map payload: a 4-byte pair
/// count, then each key and value encoded in turn.
fn map_pairs_into_bytes(kt: &TypeDescriptor, vt: &TypeDescriptor, parts: &Vec<Vec<char>>) -> (r:
    Result<Vec<u8>, Error>)
    ensures
        r is Ok <==> (parts.deep_view().len() <= u32::MAX && encoded_pairs(
            *kt,
            *vt,
            parts.deep_view(),
        ) is Some),
        r matches Ok(b) ==> (encoded_pairs(*kt, *vt, parts.deep_view()) matches Some(body)
            && b@ =~= u32_le_bytes(parts.deep_view().len() as int) + body),
        r matches Err(e) ==> fault_matches(
            e,
            if parts.deep_view().len() <= u32::MAX {
                pairs_fault(*kt, *vt, parts.deep_view())
            } else {
                FaultKind::Oversize
            },
        ),
        r matches Err(e) ==> !(e matches Error::MissingRequiredValue(_)),
    decreases vstd::math::max(kt.height() as int, vt.height() as int), parts@.len(), 2nat,
{
    let ghost all = parts.deep_view();
    if parts.len() > 0xffffffffusize {
        return Err(Error::SerializationError);
    }
    let mut out: Vec<u8> = Vec::new();
    let mut i: usize = 0;
    proof {
        assert(all.skip(0) =~~= all);
    }
    while i < parts.len()
        invariant
            0 <= i <= parts@.len(),
            all =~~= parts.deep_view(),
            all.len() == parts@.len(),
            all.len() <= u32::MAX,
            encoded_pairs(*kt, *vt, all.take(i as int)) == Some(out@),
            pairs_fault(*kt, *vt, all) == pairs_fault(*kt, *vt, all.skip(i as int)),
        decreases parts@.len() - i,
    {
        proof {
            assert(parts.deep_view()[i as int] =~= parts@[i as int]@);
            lemma_encoded_pairs_split(*kt, *vt, all, i as int);
            assert(all.skip(i as int)[0] =~= all[i as int]);
            assert(all.skip(i as int).drop_first() =~~= all.skip(i + 1));
        }
        let kv = split_chars(parts[i].as_slice(), ':');
        proof {
            assert(kv.deep_view() =~~= spec_split(all[i as int], ':'));
            assert(kv.deep_view()[0] =~= kv@[0]@);
            if kv@.len() == 2 {
                assert(kv.deep_view()[1] =~= kv@[1]@);
            }
        }
        if kv.len() != 2 {
            proof {
                assert(pairs_fault(*kt, *vt, all.skip(i as int)) == FaultKind::Format);
            }
            return Err(Error::Formatting(string_of(parts[i].as_slice())));
        }
        let bk = match into_bytes_chars(kt, kv[0].as_slice()) {
            Ok(b) => b,
            Err(e) => {
                proof {
                    assert(encoded_leaf(*kt, spec_split(all[i as int], ':')[0]) is None);
                    assert(pairs_fault(*kt, *vt, all.skip(i as int)) == encode_fault(
                        *kt,
                        spec_split(all[i as int], ':')[0],
                    ));
                }
                return Err(e);
            },
        };
        let bv = match into_bytes_chars(vt, kv[1].as_slice()) {
            Ok(b) => b,
            Err(e) => {
                proof {
                    assert(encoded_leaf(*kt, spec_split(all[i as int], ':')[0]) is Some);
                    assert(encoded_leaf(*vt, spec_split(all[i as int], ':')[1]) is None);
                    assert(pairs_fault(*kt, *vt, all.skip(i as int)) == encode_fault(
                        *vt,
                        spec_split(all[i as int], ':')[1],
                    ));
                }
                return Err(e);
            },
        };
        proof {
            assert(pairs_fault(*kt, *vt, all.skip(i as int)) == pairs_fault(
                *kt,
                *vt,
                all.skip(i + 1),
            ));
        }
        let ghost old_out = out@;
        let mut bk2 = bk;
        let mut bv2 = bv;
        out.append(&mut bk2);
        out.append(&mut bv2);
        proof {
            assert(all.take(i + 1).take(i as int) =~~= all.take(i as int));
            assert(all.take(i + 1).skip(i as int) =~~= seq![all[i as int]]);
            lemma_encoded_pairs_split(*kt, *vt, all.take(i + 1), i as int);
            assert(spec_split(all[i as int], ':').len() == 2);
            let ebk = encoded_leaf(*kt, spec_split(all[i as int], ':')[0])->0;
            let ebv = encoded_leaf(*vt, spec_split(all[i as int], ':')[1])->0;
            assert(encoded_leaf(*kt, spec_split(all[i as int], ':')[0]) == Some(ebk));
            assert(encoded_leaf(*vt, spec_split(all[i as int], ':')[1]) == Some(ebv));
            assert(seq![all[i as int]][0] =~= all[i as int]);
            assert(seq![all[i as int]].drop_first() =~~= Seq::<Seq<char>>::empty());
            assert(encoded_pairs(*kt, *vt, Seq::<Seq<char>>::empty()) == Some(
                Seq::<u8>::empty(),
            ));
            assert(encoded_pairs(*kt, *vt, seq![all[i as int]]) == Some(ebk + ebv + Seq::<
                u8,
            >::empty()));
            assert(ebk + ebv + Seq::<u8>::empty() =~= ebk + ebv);
            assert(out@ =~= old_out + (ebk + ebv));
        }
        i = i + 1;
    }
    proof {
        assert(all.take(all.len() as int) =~~= all);
    }
    let mut prefixed: Vec<u8> = Vec::new();
    push_u32_le(&mut prefixed, parts.len() as u32);
    prefixed.append(&mut out);
    Ok(prefixed)
}

/// Encode the supplied strings as one list payload: a 4-byte element
/// count, then each string encoded with the element type.
pub fn vec_into_bytes(ty: &TypeDescriptor, input: &Vec<String>) -> (r: Result<Vec<u8>, Error>)
    ensures
        r is Ok <==> encoded_seq(*ty, input.deep_view()) is Some,
        r matches Ok(b) ==> Some(b@) == encoded_seq(*ty, input.deep_view()),
{
    let mut parts: Vec<Vec<char>> = Vec::new();
    let mut i: usize = 0;
    while i < input.len()
        invariant
            0 <= i <= input@.len(),
            parts.deep_view() =~~= input.deep_view().take(i as int),
        decreases input@.len() - i,
    {
        proof {
            assert(input.deep_view()[i as int] =~= input@[i as int]@);
        }
        let ghost old_deep = parts.deep_view();
        let cv = chars_of(input[i].as_str());
        let ghost cvv = cv@;
        parts.push(cv);
        proof {
            assert(parts.deep_view() =~~= old_deep.push(cvv));
            assert(parts.deep_view() =~~= input.deep_view().take(i + 1));
        }
        i = i + 1;
    }
    proof {
        assert(input.deep_view().take(input@.len() as int) =~~= input.deep_view());
    }
    vec_into_bytes_parts(ty, &parts)
}

/// Decode a `0x`-prefixed hex text into its bytes.
pub fn parse_hex(input: &str) -> (r: Result<Vec<u8>, Error>)
    ensures
        r is Ok <==> (spec_has_prefix(input@, seq!['0', 'x']) && input@.skip(2).len() % 2 == 0
            && all_hex_digits(input@.skip(2))),
        r matches Ok(b) ==> b@ =~= hex_bytes_of(input@.skip(2)),
        !spec_has_prefix(input@, seq!['0', 'x']) ==> r matches Err(Error::InvalidHexString),
        (spec_has_prefix(input@, seq!['0', 'x']) && !(input@.skip(2).len() % 2 == 0
            && all_hex_digits(input@.skip(2)))) ==> r matches Err(Error::HexDecodeError),
{
    let chars = chars_of(input);
    if !has_hex_prefix(chars.as_slice()) {
        return Err(Error::InvalidHexString);
    }
    let rest = vstd::slice::slice_subrange(chars.as_slice(), 2, chars.len());
    proof {
        assert(rest@ =~= input@.skip(2));
    }
    let s = string_of(rest);
    match hex_decode(s.as_str()) {
        Some(b) => Ok(b),
        None => Err(Error::HexDecodeError),
    }
}


} // verus!
